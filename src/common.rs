use vstd::prelude::*;

verus! {

/// Failure of the parser: a grammar violation, or nesting past the limit.
#[derive(Debug, PartialEq, Eq, Clone, Copy, Structural)]
pub enum ParseError {
    UnexpectedToken,
    TooDeep,
}

/// Failure of the scanner.
#[derive(Debug, PartialEq, Eq, Clone, Copy, Structural)]
pub enum ScanError {
    UnrecognizedCharacter,
    InvalidNumber,
}

/// The kinds of token the scanner produces.
#[derive(Debug, PartialEq, Eq, Clone, Copy, Structural)]
pub enum UTokenType {
    Number,
    Left,
    Right,
    Plus,
    Minus,
    Star,
    Div,
    Pow,
}

impl UTokenType {
    pub open spec fn spec_text(self) -> Seq<char> {
        match self {
            UTokenType::Number => seq!['n', 'u', 'm'],
            UTokenType::Left => seq!['('],
            UTokenType::Right => seq![')'],
            UTokenType::Plus => seq!['+'],
            UTokenType::Minus => seq!['-'],
            UTokenType::Star => seq!['*'],
            UTokenType::Div => seq!['/'],
            UTokenType::Pow => seq!['^'],
        }
    }

    /// Short display text: the operator symbol, or `num` for a number.
    pub fn text(&self) -> (r: String)
        ensures
            r@ == self.spec_text(),
    {
        let s = match self {
            UTokenType::Number => "num",
            UTokenType::Left => "(",
            UTokenType::Right => ")",
            UTokenType::Plus => "+",
            UTokenType::Minus => "-",
            UTokenType::Star => "*",
            UTokenType::Div => "/",
            UTokenType::Pow => "^",
        };
        proof {
            reveal_strlit("num");
            reveal_strlit("(");
            reveal_strlit(")");
            reveal_strlit("+");
            reveal_strlit("-");
            reveal_strlit("*");
            reveal_strlit("/");
            reveal_strlit("^");
        }
        let r = String::from_str(s);
        assert(r@ =~= self.spec_text());
        r
    }
}

/// A token: its kind and, for a number, the digits it was read from.
#[derive(Clone, Debug)]
pub struct UToken {
    pub _type: UTokenType,
    pub _val: Option<String>,
}

pub open spec fn text_view(v: Option<String>) -> Option<Seq<char>> {
    match v {
        Some(s) => Some(s@),
        None => None,
    }
}

impl View for UToken {
    type V = (UTokenType, Option<Seq<char>>);

    open spec fn view(&self) -> (UTokenType, Option<Seq<char>>) {
        (self._type, text_view(self._val))
    }
}

impl UToken {
    /// A token of the given kind with no payload.
    pub fn new(t: UTokenType) -> (r: UToken)
        ensures
            r._type == t,
            r._val is None,
    {
        UToken { _type: t, _val: None }
    }

    /// A number token holding the given digits.
    pub fn number(digits: String) -> (r: UToken)
        ensures
            r._type == UTokenType::Number,
            r._val == Some(digits),
    {
        UToken { _type: UTokenType::Number, _val: Some(digits) }
    }

    /// An identical copy of this token.
    pub fn duplicate(&self) -> (r: UToken)
        ensures
            r == *self,
    {
        let v = match &self._val {
            Some(s) => Some(s.clone()),
            None => None,
        };
        UToken { _type: self._type, _val: v }
    }
}

} // verus!
