//! The grammar of a placement script.
//!
//! A script is a list of blocks. A block is a name and, in braces, a list of
//! elements. An element is a name, a colon, a list of attributes and a
//! semicolon. An attribute is a key and a value, with `=` or white space
//! between them; attributes are parted by a comma or by white space. White
//! space and comments, which run from `#` to the end of the line, may stand
//! between all of these.
//!
//! The grammar is read from left to right without looking back: once the
//! name of a block, of an element or of an attribute was read, what follows
//! must fit, or the text is no script.

use vstd::prelude::*;
use vstd::std_specs::iter::IteratorSpec;
use vstd::string::StrSliceExecFns;
use crate::script::ast::{
    Attribute, AttributeView, Block, BlockView, Element, ElementView, FormatString, FormatStringPart,
    PartView, Script, ScriptView, Value, ValueView,
};
use crate::script::eval::{ScriptError, ScriptErrorKind};
use crate::script::text::{ascii_lowercase, lower_ascii};

verus! {

/// The kinds of characters that the grammar tells apart.
#[derive(Clone, Copy, Debug, PartialEq, Eq, Structural)]
pub enum CharClass {
    /// Blank, tab, carriage return and line feed.
    Space,
    /// ASCII letters, digits and the underscore.
    IdentChar,
    BinDigit,
    DecDigit,
    HexDigit,
    /// Everything but carriage return and line feed.
    NotLineEnd,
    /// Everything but the double quote and the percent sign.
    NotQuoteOrPercent,
}

pub open spec fn is_letter(c: char) -> bool {
    ('a' <= c && c <= 'z') || ('A' <= c && c <= 'Z')
}

pub open spec fn is_dec_digit(c: char) -> bool {
    '0' <= c && c <= '9'
}

pub open spec fn in_class(cls: CharClass, c: char) -> bool {
    match cls {
        CharClass::Space => c == ' ' || c == '\t' || c == '\r' || c == '\n',
        CharClass::IdentChar => is_letter(c) || is_dec_digit(c) || c == '_',
        CharClass::BinDigit => c == '0' || c == '1',
        CharClass::DecDigit => is_dec_digit(c),
        CharClass::HexDigit => is_dec_digit(c) || ('a' <= c && c <= 'f') || ('A' <= c && c <= 'F'),
        CharClass::NotLineEnd => c != '\r' && c != '\n',
        CharClass::NotQuoteOrPercent => c != '"' && c != '%',
    }
}

/// The end of the longest run of characters of a class from `pos` on.
pub open spec fn span(s: Seq<char>, pos: int, cls: CharClass) -> int
    decreases s.len() - pos,
{
    if 0 <= pos < s.len() && in_class(cls, s[pos]) {
        span(s, pos + 1, cls)
    } else {
        pos
    }
}

pub proof fn lemma_span_bounds(s: Seq<char>, pos: int, cls: CharClass)
    requires
        0 <= pos <= s.len(),
    ensures
        pos <= span(s, pos, cls) <= s.len(),
    decreases s.len() - pos,
{
    if pos < s.len() && in_class(cls, s[pos]) {
        lemma_span_bounds(s, pos + 1, cls);
    }
}

/// The position after the white space and the comments that stand at `pos`.
/// A comment is `#` with at least one character after it on its line.
pub open spec fn ign(s: Seq<char>, pos: int) -> int
    decreases s.len() - pos,
{
    if !(0 <= pos < s.len()) {
        pos
    } else if in_class(CharClass::Space, s[pos]) {
        ign(s, pos + 1)
    } else if s[pos] == '#' && pos + 1 < span(s, pos + 1, CharClass::NotLineEnd) <= s.len() {
        ign(s, span(s, pos + 1, CharClass::NotLineEnd))
    } else {
        pos
    }
}

pub proof fn lemma_ign_bounds(s: Seq<char>, pos: int)
    requires
        0 <= pos <= s.len(),
    ensures
        pos <= ign(s, pos) <= s.len(),
    decreases s.len() - pos,
{
    if pos < s.len() {
        if in_class(CharClass::Space, s[pos]) {
            lemma_ign_bounds(s, pos + 1);
        } else if s[pos] == '#' && pos + 1 < span(s, pos + 1, CharClass::NotLineEnd) <= s.len() {
            lemma_ign_bounds(s, span(s, pos + 1, CharClass::NotLineEnd));
        }
    }
}

fn char_in_class(cls: CharClass, c: char) -> (r: bool)
    ensures
        r == in_class(cls, c),
{
    match cls {
        CharClass::Space => c == ' ' || c == '\t' || c == '\r' || c == '\n',
        CharClass::IdentChar => ('a' <= c && c <= 'z') || ('A' <= c && c <= 'Z') || ('0' <= c && c <= '9') || c
            == '_',
        CharClass::BinDigit => c == '0' || c == '1',
        CharClass::DecDigit => '0' <= c && c <= '9',
        CharClass::HexDigit => ('0' <= c && c <= '9') || ('a' <= c && c <= 'f') || ('A' <= c && c <= 'F'),
        CharClass::NotLineEnd => c != '\r' && c != '\n',
        CharClass::NotQuoteOrPercent => c != '"' && c != '%',
    }
}

/// Runs over the characters of a class from `pos` on.
fn scan(chars: &Vec<char>, pos: usize, cls: CharClass) -> (r: usize)
    requires
        pos <= chars@.len(),
    ensures
        r == span(chars@, pos as int, cls),
        pos <= r <= chars@.len(),
{
    let mut p = pos;
    while p < chars.len() && char_in_class(cls, chars[p])
        invariant
            pos <= p <= chars@.len(),
            span(chars@, pos as int, cls) == span(chars@, p as int, cls),
        decreases chars@.len() - p,
    {
        p += 1;
    }
    p
}

/// Passes over white space and comments.
fn skip_ign(chars: &Vec<char>, pos: usize) -> (r: usize)
    requires
        pos <= chars@.len(),
    ensures
        r == ign(chars@, pos as int),
        pos <= r <= chars@.len(),
{
    let mut p = pos;
    loop
        invariant
            pos <= p <= chars@.len(),
            ign(chars@, pos as int) == ign(chars@, p as int),
        ensures
            p == ign(chars@, pos as int),
            pos <= p <= chars@.len(),
        decreases chars@.len() - p,
    {
        if p >= chars.len() {
            break;
        }
        let c = chars[p];
        if char_in_class(CharClass::Space, c) {
            p += 1;
        } else if c == '#' {
            let end = scan(chars, p + 1, CharClass::NotLineEnd);
            if end > p + 1 {
                p = end;
            } else {
                break;
            }
        } else {
            break;
        }
    }
    p
}

/// A text with its characters.
pub struct Source<'a> {
    text: &'a str,
    chars: Vec<char>,
}

impl<'a> Source<'a> {
    pub closed spec fn view(&self) -> Seq<char> {
        self.chars@
    }

    pub closed spec fn wf(&self) -> bool {
        self.chars@ == self.text@
    }

    /// Takes a text apart into its characters.
    pub fn new(text: &'a str) -> (r: Self)
        ensures
            r.wf(),
            r@ == text@,
    {
        Source { text, chars: chars_of(text) }
    }

    fn len(&self) -> (r: usize)
        ensures
            r == self@.len(),
    {
        self.chars.len()
    }

    fn at(&self, pos: usize) -> (r: char)
        requires
            pos < self@.len(),
        ensures
            r == self@[pos as int],
    {
        self.chars[pos]
    }

    /// A copy of the text between two positions.
    fn slice(&self, from: usize, to: usize) -> (r: String)
        requires
            self.wf(),
            from <= to <= self@.len(),
        ensures
            r@ == self@.subrange(from as int, to as int),
    {
        self.text.substring_char(from, to).to_owned()
    }

    fn scan(&self, pos: usize, cls: CharClass) -> (r: usize)
        requires
            pos <= self@.len(),
        ensures
            r == span(self@, pos as int, cls),
            pos <= r <= self@.len(),
    {
        scan(&self.chars, pos, cls)
    }

    fn skip_ign(&self, pos: usize) -> (r: usize)
        requires
            pos <= self@.len(),
        ensures
            r == ign(self@, pos as int),
            pos <= r <= self@.len(),
    {
        skip_ign(&self.chars, pos)
    }
}

/// The characters of a text.
fn chars_of(s: &str) -> (r: Vec<char>)
    ensures
        r@ == s@,
{
    broadcast use {vstd::string::axiom_spec_iter, vstd::string::next_postcondition};

    let mut it = s.chars();
    let mut r: Vec<char> = Vec::new();
    loop
        invariant
            r@ + it.remaining() == s@,
        ensures
            r@ == s@,
        decreases s@.len() - r@.len(),
    {
        let ghost rest = it.remaining();
        match it.next() {
            Some(c) => {
                r.push(c);
                assert(r@ + rest.drop_first() =~= r@.drop_last() + rest);
            },
            None => {
                assert(r@ + rest =~= r@);
                break;
            },
        }
    }
    r
}

/// The end of the name that starts at `pos`: a letter or an underscore, and
/// then letters, digits and underscores.
pub open spec fn identifier(s: Seq<char>, pos: int) -> Option<int> {
    if 0 <= pos < s.len() && (is_letter(s[pos]) || s[pos] == '_') {
        Some(span(s, pos + 1, CharClass::IdentChar))
    } else {
        None
    }
}

fn parse_identifier(src: &Source, pos: usize) -> (r: Option<usize>)
    requires
        pos <= src@.len(),
    ensures
        match r {
            Some(end) => identifier(src@, pos as int) == Some(end as int) && pos < end <= src@.len(),
            None => identifier(src@, pos as int) is None,
        },
{
    if pos < src.len() {
        let c = src.at(pos);
        if ('a' <= c && c <= 'z') || ('A' <= c && c <= 'Z') || c == '_' {
            return Some(src.scan(pos + 1, CharClass::IdentChar));
        }
    }
    None
}

/// The word stands at `pos`, in lower or upper case letters or any mix of
/// them. `lower` and `upper` are the word in the two cases.
pub open spec fn has_word(s: Seq<char>, pos: int, lower: Seq<char>, upper: Seq<char>) -> bool {
    &&& 0 <= pos
    &&& pos + lower.len() <= s.len()
    &&& forall|k: int| 0 <= k < lower.len() ==> #[trigger] s[pos + k] == lower[k] || s[pos + k] == upper[k]
}

fn parse_word(src: &Source, pos: usize, lower: &str, upper: &str) -> (r: bool)
    requires
        pos <= src@.len(),
        lower@.len() == upper@.len(),
    ensures
        r == has_word(src@, pos as int, lower@, upper@),
{
    let n = lower.unicode_len();
    let total = src.len();
    if n > total - pos {
        return false;
    }
    let mut k: usize = 0;
    while k < n
        invariant
            pos + n <= src@.len(),
            total == src@.len(),
            n == lower@.len(),
            n == upper@.len(),
            k <= n,
            forall|j: int| 0 <= j < k ==> #[trigger] src@[pos + j] == lower@[j] || src@[pos + j] == upper@[j],
        decreases n - k,
    {
        let c = src.at(pos + k);
        if !(c == lower.get_char(k) || c == upper.get_char(k)) {
            return false;
        }
        k += 1;
    }
    true
}

/// The truth value that stands at `pos`, with its end: `yes`, `no`, `true`
/// or `false`, in any case of letters.
pub open spec fn boolean(s: Seq<char>, pos: int) -> Option<(bool, int)> {
    if has_word(s, pos, "yes"@, "YES"@) {
        Some((true, pos + "yes"@.len()))
    } else if has_word(s, pos, "no"@, "NO"@) {
        Some((false, pos + "no"@.len()))
    } else if has_word(s, pos, "true"@, "TRUE"@) {
        Some((true, pos + "true"@.len()))
    } else if has_word(s, pos, "false"@, "FALSE"@) {
        Some((false, pos + "false"@.len()))
    } else {
        None
    }
}

fn parse_boolean(src: &Source, pos: usize) -> (r: Option<(bool, usize)>)
    requires
        pos <= src@.len(),
    ensures
        match r {
            Some(v) => boolean(src@, pos as int) == Some((v.0, v.1 as int)) && pos <= v.1 <= src@.len(),
            None => boolean(src@, pos as int) is None,
        },
{
    proof {
        reveal_strlit("yes");
        reveal_strlit("YES");
        reveal_strlit("no");
        reveal_strlit("NO");
        reveal_strlit("true");
        reveal_strlit("TRUE");
        reveal_strlit("false");
        reveal_strlit("FALSE");
    }
    let total = src.len();
    if parse_word(src, pos, "yes", "YES") {
        Some((true, pos + 3))
    } else if parse_word(src, pos, "no", "NO") {
        Some((false, pos + 2))
    } else if parse_word(src, pos, "true", "TRUE") {
        Some((true, pos + 4))
    } else if parse_word(src, pos, "false", "FALSE") {
        Some((false, pos + 5))
    } else {
        None
    }
}

/// The number that a digit stands for.
pub open spec fn digit_value(c: char) -> int {
    if is_dec_digit(c) {
        c as u32 - '0' as u32
    } else if 'a' <= c && c <= 'f' {
        c as u32 - 'a' as u32 + 10
    } else {
        c as u32 - 'A' as u32 + 10
    }
}

/// The number that the digits between two positions stand for.
pub open spec fn digits_value(s: Seq<char>, from: int, to: int, radix: int) -> int
    decreases to - from,
{
    if to <= from {
        0
    } else {
        digits_value(s, from, to - 1, radix) * radix + digit_value(s[to - 1])
    }
}

/// The class of the digits of a radix.
pub open spec fn digit_class(radix: int) -> CharClass {
    if radix == 2 {
        CharClass::BinDigit
    } else if radix == 16 {
        CharClass::HexDigit
    } else {
        CharClass::DecDigit
    }
}

/// The number that the digits at `pos` stand for, with their end. There must
/// be a digit, and the number must be a `u32`.
pub open spec fn number(s: Seq<char>, pos: int, radix: int) -> Option<(u32, int)> {
    let end = span(s, pos, digit_class(radix));
    if end > pos && digits_value(s, pos, end, radix) <= u32::MAX {
        Some((digits_value(s, pos, end, radix) as u32, end))
    } else {
        None
    }
}

/// The unsigned number that stands at `pos`, with its end: binary digits
/// after `%`, hexadecimal digits after `$`, or decimal digits.
pub open spec fn uint(s: Seq<char>, pos: int) -> Option<(u32, int)> {
    if !(0 <= pos < s.len()) {
        None
    } else if s[pos] == '%' {
        number(s, pos + 1, 2)
    } else if s[pos] == '$' {
        number(s, pos + 1, 16)
    } else {
        number(s, pos, 10)
    }
}

proof fn lemma_digits_grow(s: Seq<char>, from: int, mid: int, to: int, radix: int)
    requires
        0 <= from <= mid <= to <= s.len(),
        radix == 2 || radix == 10 || radix == 16,
        forall|k: int| from <= k < to ==> in_class(digit_class(radix), #[trigger] s[k]),
    ensures
        0 <= digits_value(s, from, mid, radix) <= digits_value(s, from, to, radix),
    decreases to - from,
{
    if from < to {
        if mid < to {
            lemma_digits_grow(s, from, mid, to - 1, radix);
            assert(digits_value(s, from, to - 1, radix) * radix >= digits_value(s, from, to - 1, radix))
                by (nonlinear_arith)
                requires
                    digits_value(s, from, to - 1, radix) >= 0,
                    radix >= 1,
            ;
        } else {
            lemma_digits_grow(s, from, to - 1, to - 1, radix);
            assert(digits_value(s, from, to - 1, radix) * radix >= 0) by (nonlinear_arith)
                requires
                    digits_value(s, from, to - 1, radix) >= 0,
                    radix >= 1,
            ;
        }
    }
}

proof fn lemma_span_all(s: Seq<char>, pos: int, cls: CharClass, k: int)
    requires
        0 <= pos <= k < span(s, pos, cls),
    ensures
        k < s.len(),
        in_class(cls, s[k]),
    decreases s.len() - pos,
{
    if 0 <= pos < s.len() && in_class(cls, s[pos]) {
        if k > pos {
            lemma_span_all(s, pos + 1, cls, k);
        }
    }
}

fn digit_of(c: char) -> (r: u32)
    requires
        in_class(CharClass::HexDigit, c),
    ensures
        r == digit_value(c),
        r < 16,
        in_class(CharClass::DecDigit, c) ==> r < 10,
        in_class(CharClass::BinDigit, c) ==> r < 2,
{
    if '0' <= c && c <= '9' {
        c as u32 - '0' as u32
    } else if 'a' <= c && c <= 'f' {
        c as u32 - 'a' as u32 + 10
    } else {
        c as u32 - 'A' as u32 + 10
    }
}

fn parse_number(src: &Source, pos: usize, radix: u32) -> (r: Option<(u32, usize)>)
    requires
        pos <= src@.len(),
        radix == 2 || radix == 10 || radix == 16,
    ensures
        match r {
            Some(v) => number(src@, pos as int, radix as int) == Some((v.0, v.1 as int)) && pos < v.1
                <= src@.len(),
            None => number(src@, pos as int, radix as int) is None,
        },
{
    let cls = if radix == 2 {
        CharClass::BinDigit
    } else if radix == 16 {
        CharClass::HexDigit
    } else {
        CharClass::DecDigit
    };
    let end = src.scan(pos, cls);
    if end == pos {
        return None;
    }
    proof {
        assert forall|k: int| pos <= k < end implies in_class(digit_class(radix as int), #[trigger] src@[k]) by {
            lemma_span_all(src@, pos as int, cls, k);
        }
    }
    let mut value: u32 = 0;
    let mut p = pos;
    while p < end
        invariant
            pos <= p <= end <= src@.len(),
            pos < end,
            end == span(src@, pos as int, digit_class(radix as int)),
            radix == 2 || radix == 10 || radix == 16,
            forall|k: int| pos <= k < end ==> in_class(digit_class(radix as int), #[trigger] src@[k]),
            value == digits_value(src@, pos as int, p as int, radix as int),
        decreases end - p,
    {
        let d = digit_of(src.at(p));
        if value > (u32::MAX - d) / radix {
            proof {
                assert(value * radix + d > u32::MAX) by (nonlinear_arith)
                    requires
                        value > (u32::MAX - d) / (radix as int),
                        radix >= 2,
                        0 <= d,
                ;
                assert(digits_value(src@, pos as int, p + 1, radix as int) == value * radix + d);
                lemma_digits_grow(src@, pos as int, p + 1, end as int, radix as int);
            }
            return None;
        }
        assert(value * radix + d <= u32::MAX) by (nonlinear_arith)
            requires
                value <= (u32::MAX - d) / (radix as int),
                radix >= 2,
                0 <= d <= u32::MAX,
        ;
        value = value * radix + d;
        p += 1;
    }
    Some((value, end))
}

fn parse_uint(src: &Source, pos: usize) -> (r: Option<(u32, usize)>)
    requires
        pos <= src@.len(),
    ensures
        match r {
            Some(v) => uint(src@, pos as int) == Some((v.0, v.1 as int)) && pos < v.1 <= src@.len(),
            None => uint(src@, pos as int) is None,
        },
{
    if pos >= src.len() {
        return None;
    }
    let c = src.at(pos);
    if c == '%' {
        parse_number(src, pos + 1, 2)
    } else if c == '$' {
        parse_number(src, pos + 1, 16)
    } else {
        parse_number(src, pos, 10)
    }
}

/// The pieces of a string from `pos` on, with their end: `%O`, `%%`, and
/// runs of characters other than the quote and the percent sign.
pub open spec fn string_parts(s: Seq<char>, pos: int) -> (Seq<PartView>, int)
    decreases s.len() - pos,
{
    if !(0 <= pos < s.len()) {
        (Seq::empty(), pos)
    } else if s[pos] == '%' && pos + 1 < s.len() && s[pos + 1] == 'O' {
        (seq![PartView::MainOutFile] + string_parts(s, pos + 2).0, string_parts(s, pos + 2).1)
    } else if s[pos] == '%' && pos + 1 < s.len() && s[pos + 1] == '%' {
        (seq![PartView::EscapedPercent] + string_parts(s, pos + 2).0, string_parts(s, pos + 2).1)
    } else if pos < span(s, pos, CharClass::NotQuoteOrPercent) <= s.len() {
        (
            seq![PartView::Literal(s.subrange(pos, span(s, pos, CharClass::NotQuoteOrPercent)))] + string_parts(
                s,
                span(s, pos, CharClass::NotQuoteOrPercent),
            ).0,
            string_parts(s, span(s, pos, CharClass::NotQuoteOrPercent)).1,
        )
    } else {
        (Seq::empty(), pos)
    }
}

/// The string that stands at `pos`, with its end: pieces between two quotes.
pub open spec fn string(s: Seq<char>, pos: int) -> Option<(Seq<PartView>, int)> {
    if 0 <= pos < s.len() && s[pos] == '"' && 0 <= string_parts(s, pos + 1).1 < s.len() && s[string_parts(
        s,
        pos + 1,
    ).1] == '"' {
        Some((string_parts(s, pos + 1).0, string_parts(s, pos + 1).1 + 1))
    } else {
        None
    }
}

fn parse_string(src: &Source, pos: usize) -> (r: Option<(Vec<FormatStringPart>, usize)>)
    requires
        src.wf(),
        pos <= src@.len(),
    ensures
        match r {
            Some(v) => string(src@, pos as int) == Some((v.0.deep_view(), v.1 as int)) && pos < v.1 <= src@.len(),
            None => string(src@, pos as int) is None,
        },
{
    let total = src.len();
    if !(pos < total && src.at(pos) == '"') {
        return None;
    }
    let mut parts: Vec<FormatStringPart> = Vec::new();
    let mut p = pos + 1;
    loop
        invariant
            src.wf(),
            total == src@.len(),
            pos < p <= total,
            string_parts(src@, pos + 1) == (
                parts.deep_view() + string_parts(src@, p as int).0,
                string_parts(src@, p as int).1,
            ),
        ensures
            pos < p <= total,
            string_parts(src@, pos + 1) == (parts.deep_view(), p as int),
        decreases total - p,
    {
        let ghost before = parts.deep_view();
        let ghost here = p as int;
        if p >= total {
            assert(before + Seq::<PartView>::empty() =~= before);
            break;
        }
        let c = src.at(p);
        if c == '%' && p + 1 < total && src.at(p + 1) == 'O' {
            parts.push(FormatStringPart::MainOutFile);
            p += 2;
            assert(parts.deep_view() =~= before.push(PartView::MainOutFile));
            assert(before + (seq![PartView::MainOutFile] + string_parts(src@, p as int).0) =~= parts.deep_view()
                + string_parts(src@, p as int).0);
        } else if c == '%' && p + 1 < total && src.at(p + 1) == '%' {
            parts.push(FormatStringPart::EscapedPercent);
            p += 2;
            assert(parts.deep_view() =~= before.push(PartView::EscapedPercent));
            assert(before + (seq![PartView::EscapedPercent] + string_parts(src@, p as int).0)
                =~= parts.deep_view() + string_parts(src@, p as int).0);
        } else {
            let end = src.scan(p, CharClass::NotQuoteOrPercent);
            if end > p {
                let text = src.slice(p, end);
                let ghost piece = PartView::Literal(text@);
                parts.push(FormatStringPart::Literal(text));
                p = end;
                assert(parts.deep_view() =~= before.push(piece));
                assert(before + (seq![piece] + string_parts(src@, p as int).0) =~= parts.deep_view()
                    + string_parts(src@, p as int).0);
            } else {
                assert(before + Seq::<PartView>::empty() =~= before);
                break;
            }
        }
    }
    if p < total && src.at(p) == '"' {
        Some((parts, p + 1))
    } else {
        None
    }
}

/// The value that stands at `pos`, with its end. A truth value is tried
/// first, then a name, then `%O`, then a string, then a number.
pub open spec fn attribute_value(s: Seq<char>, pos: int) -> Option<(ValueView, int)> {
    match boolean(s, pos) {
        Some(b) => Some((ValueView::Bool(b.0), b.1)),
        None => match identifier(s, pos) {
            Some(end) => Some((ValueView::Ident(s.subrange(pos, end)), end)),
            None => if 0 <= pos && pos + 1 < s.len() && s[pos] == '%' && s[pos + 1] == 'O' {
                Some((ValueView::String(seq![PartView::MainOutFile]), pos + 2))
            } else {
                match string(s, pos) {
                    Some(v) => Some((ValueView::String(v.0), v.1)),
                    None => match uint(s, pos) {
                        Some(v) => Some((ValueView::Uint(v.0), v.1)),
                        None => None,
                    },
                }
            },
        },
    }
}

fn parse_attribute_value(src: &Source, pos: usize) -> (r: Option<(Value, usize)>)
    requires
        src.wf(),
        pos <= src@.len(),
    ensures
        match r {
            Some(v) => attribute_value(src@, pos as int) == Some((v.0.deep_view(), v.1 as int)) && pos <= v.1
                <= src@.len(),
            None => attribute_value(src@, pos as int) is None,
        },
{
    let total = src.len();
    if let Some((b, end)) = parse_boolean(src, pos) {
        return Some((Value::Bool(b), end));
    }
    if let Some(end) = parse_identifier(src, pos) {
        return Some((Value::Ident(src.slice(pos, end)), end));
    }
    if pos < total && total - pos >= 2 && src.at(pos) == '%' && src.at(pos + 1) == 'O' {
        let mut parts: Vec<FormatStringPart> = Vec::new();
        parts.push(FormatStringPart::MainOutFile);
        assert(parts.deep_view() =~= seq![PartView::MainOutFile]);
        return Some((Value::String(FormatString { parts }), pos + 2));
    }
    if let Some((parts, end)) = parse_string(src, pos) {
        return Some((Value::String(FormatString { parts }), end));
    }
    if let Some((x, end)) = parse_uint(src, pos) {
        return Some((Value::Uint(x), end));
    }
    None
}

/// How the reading of a part of the grammar ends.
pub enum Parsed<T> {
    /// The part was read: its value and the position after it.
    Done(T, int),
    /// The part does not stand here. Something else may.
    Backtrack,
    /// The part started and did not go on as it must: the text is no script.
    Cut,
}

/// How the reading of a part of the grammar ends, in the running program.
pub enum Step<T> {
    Done(T, usize),
    Backtrack,
    Cut,
}

/// The running program has read what the grammar says.
pub open spec fn agree<T: DeepView>(step: Step<T>, parsed: Parsed<T::V>) -> bool {
    match step {
        Step::Done(v, end) => parsed == Parsed::Done(v.deep_view(), end as int),
        Step::Backtrack => parsed is Backtrack,
        Step::Cut => parsed is Cut,
    }
}

/// The values `xs` followed by the values that were read.
pub open spec fn prepend<T>(xs: Seq<T>, parsed: Parsed<Seq<T>>) -> Parsed<Seq<T>> {
    match parsed {
        Parsed::Done(tail, end) => Parsed::Done(xs + tail, end),
        Parsed::Backtrack => Parsed::Backtrack,
        Parsed::Cut => Parsed::Cut,
    }
}

proof fn lemma_prepend_push<T>(xs: Seq<T>, x: T, parsed: Parsed<Seq<T>>)
    ensures
        prepend(xs, prepend(seq![x], parsed)) == prepend(xs.push(x), parsed),
{
    match parsed {
        Parsed::Done(tail, end) => {
            assert(xs + (seq![x] + tail) =~= xs.push(x) + tail);
        },
        _ => {},
    }
}

proof fn lemma_prepend_none<T>(xs: Seq<T>, end: int)
    ensures
        prepend(xs, Parsed::Done(Seq::<T>::empty(), end)) == Parsed::Done(xs, end),
{
    assert(xs + Seq::<T>::empty() =~= xs);
}

/// The position after the mark `c`, which may stand after white space and
/// comments.
pub open spec fn mark(s: Seq<char>, pos: int, c: char) -> Option<int> {
    if 0 <= ign(s, pos) < s.len() && s[ign(s, pos)] == c {
        Some(ign(s, pos) + 1)
    } else {
        None
    }
}

/// The position after what parts two things: the mark `c` with white space
/// and comments around it, or else white space alone.
pub open spec fn separator(s: Seq<char>, pos: int, c: char) -> Option<int> {
    match mark(s, pos, c) {
        Some(p) => Some(ign(s, p)),
        None => if 0 <= pos < s.len() && in_class(CharClass::Space, s[pos]) {
            Some(span(s, pos, CharClass::Space))
        } else {
            None
        },
    }
}

fn parse_mark(src: &Source, pos: usize, c: char) -> (r: Option<usize>)
    requires
        pos <= src@.len(),
    ensures
        match r {
            Some(p) => mark(src@, pos as int, c) == Some(p as int) && pos < p <= src@.len(),
            None => mark(src@, pos as int, c) is None,
        },
{
    let p = src.skip_ign(pos);
    if p < src.len() && src.at(p) == c {
        Some(p + 1)
    } else {
        None
    }
}

fn parse_separator(src: &Source, pos: usize, c: char) -> (r: Option<usize>)
    requires
        pos <= src@.len(),
    ensures
        match r {
            Some(p) => separator(src@, pos as int, c) == Some(p as int) && pos < p <= src@.len(),
            None => separator(src@, pos as int, c) is None,
        },
{
    match parse_mark(src, pos, c) {
        Some(p) => Some(src.skip_ign(p)),
        None => {
            if pos < src.len() && char_in_class(CharClass::Space, src.at(pos)) {
                proof {
                    lemma_span_bounds(src@, pos + 1, CharClass::Space);
                }
                Some(src.scan(pos, CharClass::Space))
            } else {
                None
            }
        },
    }
}

/// The attribute that stands at `pos`: a key, which is taken in lower case,
/// then `=` or white space, then a value.
pub open spec fn attribute(s: Seq<char>, pos: int) -> Parsed<AttributeView> {
    match identifier(s, pos) {
        None => Parsed::Backtrack,
        Some(end) => match separator(s, end, '=') {
            None => Parsed::Cut,
            Some(p) => match attribute_value(s, p) {
                None => Parsed::Cut,
                Some(v) => Parsed::Done(AttributeView { key: lower_ascii(s.subrange(pos, end)), value: v.0 }, v.1),
            },
        },
    }
}

fn parse_attribute(src: &Source, pos: usize) -> (r: Step<Attribute>)
    requires
        src.wf(),
        pos <= src@.len(),
    ensures
        agree(r, attribute(src@, pos as int)),
        r matches Step::Done(_, end) ==> pos < end <= src@.len(),
{
    let end = match parse_identifier(src, pos) {
        Some(end) => end,
        None => {
            return Step::Backtrack;
        },
    };
    let p = match parse_separator(src, end, '=') {
        Some(p) => p,
        None => {
            return Step::Cut;
        },
    };
    match parse_attribute_value(src, p) {
        Some((value, next)) => {
            let name = src.slice(pos, end);
            Step::Done(Attribute { key: ascii_lowercase(name.as_str()), value }, next)
        },
        None => Step::Cut,
    }
}

/// The attributes that follow one that was read, each after a comma or
/// white space.
pub open spec fn more_attributes(s: Seq<char>, pos: int) -> Parsed<Seq<AttributeView>>
    decreases s.len() - pos,
{
    match separator(s, pos, ',') {
        None => Parsed::Done(Seq::empty(), pos),
        Some(p) => match attribute(s, p) {
            Parsed::Backtrack => Parsed::Done(Seq::empty(), pos),
            Parsed::Cut => Parsed::Cut,
            Parsed::Done(a, next) => if pos < next <= s.len() {
                prepend(seq![a], more_attributes(s, next))
            } else {
                Parsed::Cut
            },
        },
    }
}

/// The attributes of an element: at least one.
pub open spec fn attributes(s: Seq<char>, pos: int) -> Parsed<Seq<AttributeView>> {
    match attribute(s, pos) {
        Parsed::Backtrack => Parsed::Backtrack,
        Parsed::Cut => Parsed::Cut,
        Parsed::Done(a, next) => prepend(seq![a], more_attributes(s, next)),
    }
}

fn parse_attributes(src: &Source, pos: usize) -> (r: Step<Vec<Attribute>>)
    requires
        src.wf(),
        pos <= src@.len(),
    ensures
        agree(r, attributes(src@, pos as int)),
        r matches Step::Done(_, end) ==> pos < end <= src@.len(),
{
    let mut attrs: Vec<Attribute> = Vec::new();
    let mut p = match parse_attribute(src, pos) {
        Step::Done(a, next) => {
            let ghost view = a.deep_view();
            attrs.push(a);
            assert(attrs.deep_view() =~= seq![view]);
            next
        },
        Step::Backtrack => {
            return Step::Backtrack;
        },
        Step::Cut => {
            return Step::Cut;
        },
    };
    loop
        invariant
            src.wf(),
            pos < p <= src@.len(),
            attributes(src@, pos as int) == prepend(attrs.deep_view(), more_attributes(src@, p as int)),
        ensures
            pos < p <= src@.len(),
            attributes(src@, pos as int) == Parsed::Done(attrs.deep_view(), p as int),
        decreases src@.len() - p,
    {
        let ghost before = attrs.deep_view();
        let after_sep = match parse_separator(src, p, ',') {
            Some(q) => q,
            None => {
                proof {
                    lemma_prepend_none(before, p as int);
                }
                break;
            },
        };
        match parse_attribute(src, after_sep) {
            Step::Done(a, next) => {
                let ghost view = a.deep_view();
                attrs.push(a);
                proof {
                    assert(attrs.deep_view() =~= before.push(view));
                    lemma_prepend_push(before, view, more_attributes(src@, next as int));
                }
                p = next;
            },
            Step::Backtrack => {
                proof {
                    lemma_prepend_none(before, p as int);
                }
                break;
            },
            Step::Cut => {
                return Step::Cut;
            },
        }
    }
    Step::Done(attrs, p)
}

/// The element that stands at `pos`: a name, a colon, attributes and a
/// semicolon.
pub open spec fn element(s: Seq<char>, pos: int) -> Parsed<ElementView> {
    match identifier(s, pos) {
        None => Parsed::Backtrack,
        Some(end) => match mark(s, end, ':') {
            None => Parsed::Cut,
            Some(p) => match attributes(s, ign(s, p)) {
                Parsed::Done(attrs, next) => match mark(s, next, ';') {
                    None => Parsed::Cut,
                    Some(last) => Parsed::Done(ElementView { name: s.subrange(pos, end), attrs }, last),
                },
                _ => Parsed::Cut,
            },
        },
    }
}

fn parse_element(src: &Source, pos: usize) -> (r: Step<Element>)
    requires
        src.wf(),
        pos <= src@.len(),
    ensures
        agree(r, element(src@, pos as int)),
        r matches Step::Done(_, end) ==> pos < end <= src@.len(),
{
    let end = match parse_identifier(src, pos) {
        Some(end) => end,
        None => {
            return Step::Backtrack;
        },
    };
    let p = match parse_mark(src, end, ':') {
        Some(p) => src.skip_ign(p),
        None => {
            return Step::Cut;
        },
    };
    let (attrs, next) = match parse_attributes(src, p) {
        Step::Done(attrs, next) => (attrs, next),
        _ => {
            return Step::Cut;
        },
    };
    match parse_mark(src, next, ';') {
        Some(last) => Step::Done(Element { name: src.slice(pos, end), attrs }, last),
        None => Step::Cut,
    }
}

/// The elements that follow one that was read.
pub open spec fn more_elements(s: Seq<char>, pos: int) -> Parsed<Seq<ElementView>>
    decreases s.len() - pos,
{
    match element(s, ign(s, pos)) {
        Parsed::Backtrack => Parsed::Done(Seq::empty(), pos),
        Parsed::Cut => Parsed::Cut,
        Parsed::Done(e, next) => if pos < next <= s.len() {
            prepend(seq![e], more_elements(s, next))
        } else {
            Parsed::Cut
        },
    }
}

/// The elements of a block: none, or one and those that follow.
pub open spec fn elements(s: Seq<char>, pos: int) -> Parsed<Seq<ElementView>> {
    match element(s, pos) {
        Parsed::Backtrack => Parsed::Done(Seq::empty(), pos),
        Parsed::Cut => Parsed::Cut,
        Parsed::Done(e, next) => prepend(seq![e], more_elements(s, next)),
    }
}

fn parse_elements(src: &Source, pos: usize) -> (r: Step<Vec<Element>>)
    requires
        src.wf(),
        pos <= src@.len(),
    ensures
        agree(r, elements(src@, pos as int)),
        !(r is Backtrack),
        r matches Step::Done(_, end) ==> pos <= end <= src@.len(),
{
    let mut elems: Vec<Element> = Vec::new();
    let mut p = match parse_element(src, pos) {
        Step::Done(e, next) => {
            let ghost view = e.deep_view();
            elems.push(e);
            assert(elems.deep_view() =~= seq![view]);
            next
        },
        Step::Backtrack => {
            assert(elems.deep_view() =~= Seq::<ElementView>::empty());
            return Step::Done(elems, pos);
        },
        Step::Cut => {
            return Step::Cut;
        },
    };
    loop
        invariant
            src.wf(),
            pos < p <= src@.len(),
            elements(src@, pos as int) == prepend(elems.deep_view(), more_elements(src@, p as int)),
        ensures
            pos < p <= src@.len(),
            elements(src@, pos as int) == Parsed::Done(elems.deep_view(), p as int),
        decreases src@.len() - p,
    {
        let ghost before = elems.deep_view();
        match parse_element(src, src.skip_ign(p)) {
            Step::Done(e, next) => {
                let ghost view = e.deep_view();
                elems.push(e);
                proof {
                    assert(elems.deep_view() =~= before.push(view));
                    lemma_prepend_push(before, view, more_elements(src@, next as int));
                }
                p = next;
            },
            Step::Backtrack => {
                proof {
                    lemma_prepend_none(before, p as int);
                }
                break;
            },
            Step::Cut => {
                return Step::Cut;
            },
        }
    }
    Step::Done(elems, p)
}

/// The block that stands at `pos`: a name, which is taken in lower case, and
/// elements in braces.
pub open spec fn block(s: Seq<char>, pos: int) -> Parsed<BlockView> {
    match identifier(s, pos) {
        None => Parsed::Backtrack,
        Some(end) => match mark(s, end, '{') {
            None => Parsed::Cut,
            Some(p) => match elements(s, ign(s, p)) {
                Parsed::Done(elems, next) => match mark(s, next, '}') {
                    None => Parsed::Cut,
                    Some(last) => Parsed::Done(
                        BlockView { name: lower_ascii(s.subrange(pos, end)), elems },
                        last,
                    ),
                },
                _ => Parsed::Cut,
            },
        },
    }
}

fn parse_block(src: &Source, pos: usize) -> (r: Step<Block>)
    requires
        src.wf(),
        pos <= src@.len(),
    ensures
        agree(r, block(src@, pos as int)),
        r matches Step::Done(_, end) ==> pos < end <= src@.len(),
{
    let end = match parse_identifier(src, pos) {
        Some(end) => end,
        None => {
            return Step::Backtrack;
        },
    };
    let p = match parse_mark(src, end, '{') {
        Some(p) => src.skip_ign(p),
        None => {
            return Step::Cut;
        },
    };
    let (elems, next) = match parse_elements(src, p) {
        Step::Done(elems, next) => (elems, next),
        _ => {
            return Step::Cut;
        },
    };
    match parse_mark(src, next, '}') {
        Some(last) => {
            let name = src.slice(pos, end);
            Step::Done(Block { name: ascii_lowercase(name.as_str()), elems }, last)
        },
        None => Step::Cut,
    }
}

/// The blocks that follow one that was read.
pub open spec fn more_blocks(s: Seq<char>, pos: int) -> Parsed<Seq<BlockView>>
    decreases s.len() - pos,
{
    match block(s, ign(s, pos)) {
        Parsed::Backtrack => Parsed::Done(Seq::empty(), pos),
        Parsed::Cut => Parsed::Cut,
        Parsed::Done(b, next) => if pos < next <= s.len() {
            prepend(seq![b], more_blocks(s, next))
        } else {
            Parsed::Cut
        },
    }
}

/// The blocks of a script: none, or one and those that follow.
pub open spec fn blocks(s: Seq<char>, pos: int) -> Parsed<Seq<BlockView>> {
    match block(s, pos) {
        Parsed::Backtrack => Parsed::Done(Seq::empty(), pos),
        Parsed::Cut => Parsed::Cut,
        Parsed::Done(b, next) => prepend(seq![b], more_blocks(s, next)),
    }
}

fn parse_blocks(src: &Source, pos: usize) -> (r: Step<Vec<Block>>)
    requires
        src.wf(),
        pos <= src@.len(),
    ensures
        agree(r, blocks(src@, pos as int)),
        !(r is Backtrack),
        r matches Step::Done(_, end) ==> pos <= end <= src@.len(),
{
    let mut list: Vec<Block> = Vec::new();
    let mut p = match parse_block(src, pos) {
        Step::Done(b, next) => {
            let ghost view = b.deep_view();
            list.push(b);
            assert(list.deep_view() =~= seq![view]);
            next
        },
        Step::Backtrack => {
            assert(list.deep_view() =~= Seq::<BlockView>::empty());
            return Step::Done(list, pos);
        },
        Step::Cut => {
            return Step::Cut;
        },
    };
    loop
        invariant
            src.wf(),
            pos < p <= src@.len(),
            blocks(src@, pos as int) == prepend(list.deep_view(), more_blocks(src@, p as int)),
        ensures
            pos < p <= src@.len(),
            blocks(src@, pos as int) == Parsed::Done(list.deep_view(), p as int),
        decreases src@.len() - p,
    {
        let ghost before = list.deep_view();
        match parse_block(src, src.skip_ign(p)) {
            Step::Done(b, next) => {
                let ghost view = b.deep_view();
                list.push(b);
                proof {
                    assert(list.deep_view() =~= before.push(view));
                    lemma_prepend_push(before, view, more_blocks(src@, next as int));
                }
                p = next;
            },
            Step::Backtrack => {
                proof {
                    lemma_prepend_none(before, p as int);
                }
                break;
            },
            Step::Cut => {
                return Step::Cut;
            },
        }
    }
    Step::Done(list, p)
}

/// The script that a text holds, if it holds one: blocks, with white space
/// and comments before and after them, and nothing else.
pub open spec fn script(s: Seq<char>) -> Option<ScriptView> {
    match blocks(s, ign(s, 0)) {
        Parsed::Done(list, end) => if ign(s, end) == s.len() {
            Some(ScriptView { blocks: list })
        } else {
            None
        },
        _ => None,
    }
}

/// Reads a script. A text that is no script gives a syntax error.
pub fn parse(s: &str) -> (r: Result<Script, ScriptError>)
    ensures
        match r {
            Ok(ast) => script(s@) == Some(ast.deep_view()),
            Err(e) => script(s@) is None && e == ScriptError::of_script(ScriptErrorKind::Syntax),
        },
{
    let src = Source::new(s);
    let error = ScriptError { kind: ScriptErrorKind::Syntax, block: None, elem: None, attr: None };
    match parse_blocks(&src, src.skip_ign(0)) {
        Step::Done(blocks, end) => {
            if src.skip_ign(end) == src.len() {
                Ok(Script { blocks })
            } else {
                Err(error)
            }
        },
        _ => Err(error),
    }
}

} // verus!
