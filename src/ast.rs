use crate::common::{ParseError, UToken, UTokenType};
use vstd::prelude::*;

verus! {

/// Nesting limit that `AstParser::new` uses.
pub const DEFAULT_MAX_DEPTH: usize = 100;

/// A node of the syntax tree. Each node owns its children.
#[derive(Debug)]
pub enum Expression {
    NumberLiteral { token: UToken },
    BinaryExpression { left: Box<Expression>, right: Box<Expression>, token: UToken },
    GroupingExpression { expression: Box<Expression> },
}

impl Expression {
    pub open spec fn spec_desc(&self) -> Seq<char> {
        match self {
            Expression::NumberLiteral { token } => seq!['N', 'u', 'm', 'b', 'e', 'r', 'L', 'i', 't', 'e', 'r', 'a', 'l', ':']
                + match token._val {
                Some(s) => s@,
                None => Seq::<char>::empty(),
            },
            Expression::BinaryExpression { token, .. } => seq![
                'B', 'i', 'n', 'a', 'r', 'y', 'E', 'x', 'p', 'r', 'e', 's', 's', 'i', 'o', 'n', ':', ' '
            ] + token._type.spec_text(),
            Expression::GroupingExpression { .. } => seq![
                'G', 'r', 'o', 'u', 'p', 'i', 'n', 'g', 'E', 'x', 'p', 'r', 'e', 's', 's', 'i', 'o', 'n'
            ],
        }
    }

    /// The left child: present on binary nodes only.
    pub fn get_left(&self) -> (r: Option<&Box<Expression>>)
        ensures
            match self {
                Expression::BinaryExpression { left, .. } => r == Some(left),
                _ => r is None,
            },
    {
        match self {
            Expression::BinaryExpression { left, .. } => Some(left),
            _ => None,
        }
    }

    /// The right child of a binary node, or the inner node of a grouping.
    pub fn get_right(&self) -> (r: Option<&Box<Expression>>)
        ensures
            match self {
                Expression::BinaryExpression { right, .. } => r == Some(right),
                Expression::GroupingExpression { expression } => r == Some(expression),
                Expression::NumberLiteral { .. } => r is None,
            },
    {
        match self {
            Expression::BinaryExpression { right, .. } => Some(right),
            Expression::GroupingExpression { expression } => Some(expression),
            Expression::NumberLiteral { .. } => None,
        }
    }

    /// A one-line description of this node.
    pub fn get_desc(&self) -> (r: String)
        ensures
            r@ == self.spec_desc(),
    {
        proof {
            reveal_strlit("NumberLiteral:");
            reveal_strlit("BinaryExpression: ");
            reveal_strlit("GroupingExpression");
        }
        match self {
            Expression::NumberLiteral { token } => {
                let mut r = String::from_str("NumberLiteral:");
                match &token._val {
                    Some(s) => r.append(s.as_str()),
                    None => {},
                }
                assert(r@ =~= self.spec_desc());
                r
            },
            Expression::BinaryExpression { token, .. } => {
                let mut r = String::from_str("BinaryExpression: ");
                let t = token._type.text();
                r.append(t.as_str());
                assert(r@ =~= self.spec_desc());
                r
            },
            Expression::GroupingExpression { .. } => {
                let r = String::from_str("GroupingExpression");
                assert(r@ =~= self.spec_desc());
                r
            },
        }
    }
}

/// Whether `t` is an operator of precedence level `lvl`
/// (3: `+ -`, 2: `* /`, 1: `^`).
pub open spec fn is_level_op(lvl: nat, t: UTokenType) -> bool {
    if lvl == 3 {
        t == UTokenType::Plus || t == UTokenType::Minus
    } else if lvl == 2 {
        t == UTokenType::Star || t == UTokenType::Div
    } else if lvl == 1 {
        t == UTokenType::Pow
    } else {
        false
    }
}

/// What parsing one precedence level gives: the tree and the position
/// just past it, or the error.
pub type Step = Result<(Expression, int), ParseError>;

/// Parses level `lvl` of the grammar at `pos`, with `depth` more levels of
/// parentheses allowed. Level 0 is an atom: a number, or `( add )`.
pub open spec fn parse_level(toks: Seq<UToken>, pos: int, depth: nat, lvl: nat) -> Step
    decreases depth, lvl, 1int, 0int,
{
    if lvl == 0 {
        if 0 <= pos < toks.len() && toks[pos]._type == UTokenType::Number {
            Ok((Expression::NumberLiteral { token: toks[pos] }, pos + 1))
        } else if 0 <= pos < toks.len() && toks[pos]._type == UTokenType::Left {
            if depth == 0 {
                Err(ParseError::TooDeep)
            } else {
                match parse_level(toks, pos + 1, (depth - 1) as nat, 3) {
                    Err(x) => Err(x),
                    Ok((e, p)) => if 0 <= p < toks.len() && toks[p]._type == UTokenType::Right {
                        Ok((Expression::GroupingExpression { expression: Box::new(e) }, p + 1))
                    } else {
                        Err(ParseError::UnexpectedToken)
                    },
                }
            }
        } else {
            Err(ParseError::UnexpectedToken)
        }
    } else if lvl <= 3 {
        match parse_level(toks, pos, depth, (lvl - 1) as nat) {
            Err(x) => Err(x),
            Ok((e, p)) => fold_level(toks, p, depth, lvl, e),
        }
    } else {
        Err(ParseError::UnexpectedToken)
    }
}

/// Left-associative loop of level `lvl`: while the token at `pos` is an
/// operator of the level, the next operand of level `lvl - 1` is folded
/// into a binary node whose left child is `acc`.
pub open spec fn fold_level(toks: Seq<UToken>, pos: int, depth: nat, lvl: nat, acc: Expression) -> Step
    decreases depth, lvl, 0int, toks.len() - pos,
{
    if 0 <= pos < toks.len() && 0 < lvl && is_level_op(lvl, toks[pos]._type) {
        match parse_level(toks, pos + 1, depth, (lvl - 1) as nat) {
            Err(x) => Err(x),
            Ok((rhs, next)) => if pos < next <= toks.len() {
                fold_level(
                    toks,
                    next,
                    depth,
                    lvl,
                    Expression::BinaryExpression {
                        left: Box::new(acc),
                        right: Box::new(rhs),
                        token: toks[pos],
                    },
                )
            } else {
                Err(ParseError::UnexpectedToken)
            },
        }
    } else {
        Ok((acc, pos))
    }
}

/// The tree of a whole token sequence: one `add` expression that uses
/// every token, with at most `max_depth` levels of parentheses.
pub open spec fn parse_tokens(toks: Seq<UToken>, max_depth: nat) -> Result<Expression, ParseError> {
    match parse_level(toks, 0, max_depth, 3) {
        Err(x) => Err(x),
        Ok((e, p)) => if p == toks.len() {
            Ok(e)
        } else {
            Err(ParseError::UnexpectedToken)
        },
    }
}

/// Which grammar level a parse step descends into.
#[derive(PartialEq, Eq, Clone, Copy, Structural)]
enum ECallNext {
    Pow,
    Group,
    Add,
    Mul,
}

spec fn rank(c: ECallNext) -> nat {
    match c {
        ECallNext::Group => 0,
        ECallNext::Pow => 1,
        ECallNext::Mul => 2,
        ECallNext::Add => 3,
    }
}

/// Recursive-descent parser over a token sequence.
pub struct AstParser {
    tokens: Vec<UToken>,
    current_token: usize,
    max_depth: usize,
}

impl AstParser {
    pub closed spec fn spec_tokens(&self) -> Seq<UToken> {
        self.tokens@
    }

    pub closed spec fn spec_position(&self) -> nat {
        self.current_token as nat
    }

    pub closed spec fn spec_max_depth(&self) -> nat {
        self.max_depth as nat
    }

    pub closed spec fn wf(&self) -> bool {
        self.current_token <= self.tokens@.len()
    }

    /// Whether the result of a step from `start` agrees with `parse_level`
    /// and leaves the cursor where the step ended.
    spec fn step_matches(
        &self,
        r: Result<Expression, ParseError>,
        spec: Step,
    ) -> bool {
        match r {
            Ok(e) => spec == Ok::<(Expression, int), ParseError>((e, self.current_token as int)),
            Err(x) => spec == Err::<(Expression, int), ParseError>(x),
        }
    }

    /// Parses the whole of `tokens`, which replaces any earlier input.
    pub fn parse_fun(&mut self, tokens: Vec<UToken>) -> (r: Result<Expression, ParseError>)
        ensures
            r == parse_tokens(tokens@, old(self).spec_max_depth()),
            final(self).spec_tokens() == tokens@,
            final(self).spec_max_depth() == old(self).spec_max_depth(),
            final(self).wf(),
    {
        self.tokens = tokens;
        self.current_token = 0;
        let e = self.parse()?;
        if self.current_token == self.tokens.len() {
            Ok(e)
        } else {
            Err(ParseError::UnexpectedToken)
        }
    }

    /// Parses one `add` expression from the cursor on.
    pub fn parse(&mut self) -> (r: Result<Expression, ParseError>)
        requires
            old(self).wf(),
        ensures
            final(self).wf(),
            final(self).spec_tokens() == old(self).spec_tokens(),
            final(self).spec_max_depth() == old(self).spec_max_depth(),
            match r {
                Ok(e) => parse_level(
                    old(self).spec_tokens(),
                    old(self).spec_position() as int,
                    old(self).spec_max_depth(),
                    3,
                ) == Ok::<(Expression, int), ParseError>((e, final(self).spec_position() as int)),
                Err(x) => parse_level(
                    old(self).spec_tokens(),
                    old(self).spec_position() as int,
                    old(self).spec_max_depth(),
                    3,
                ) == Err::<(Expression, int), ParseError>(x),
            },
    {
        let d = self.max_depth;
        self.add(d)
    }

    fn add(&mut self, depth: usize) -> (r: Result<Expression, ParseError>)
        requires
            old(self).wf(),
        ensures
            final(self).wf(),
            final(self).tokens@ == old(self).tokens@,
            final(self).max_depth == old(self).max_depth,
            r is Ok ==> final(self).current_token > old(self).current_token,
            final(self).step_matches(r, parse_level(old(self).tokens@, old(self).current_token as int, depth as nat, 3)),
        decreases depth, 3nat, 2int,
    {
        let m1 = self.mul(depth)?;
        self.parse_binary(m1, ECallNext::Mul, vec![UTokenType::Plus, UTokenType::Minus], depth)
    }

    fn mul(&mut self, depth: usize) -> (r: Result<Expression, ParseError>)
        requires
            old(self).wf(),
        ensures
            final(self).wf(),
            final(self).tokens@ == old(self).tokens@,
            final(self).max_depth == old(self).max_depth,
            r is Ok ==> final(self).current_token > old(self).current_token,
            final(self).step_matches(r, parse_level(old(self).tokens@, old(self).current_token as int, depth as nat, 2)),
        decreases depth, 2nat, 2int,
    {
        let p = self.pow(depth)?;
        self.parse_binary(p, ECallNext::Pow, vec![UTokenType::Star, UTokenType::Div], depth)
    }

    fn pow(&mut self, depth: usize) -> (r: Result<Expression, ParseError>)
        requires
            old(self).wf(),
        ensures
            final(self).wf(),
            final(self).tokens@ == old(self).tokens@,
            final(self).max_depth == old(self).max_depth,
            r is Ok ==> final(self).current_token > old(self).current_token,
            final(self).step_matches(r, parse_level(old(self).tokens@, old(self).current_token as int, depth as nat, 1)),
        decreases depth, 1nat, 2int,
    {
        let g = self.group(depth)?;
        self.parse_binary(g, ECallNext::Group, vec![UTokenType::Pow], depth)
    }

    fn group(&mut self, depth: usize) -> (r: Result<Expression, ParseError>)
        requires
            old(self).wf(),
        ensures
            final(self).wf(),
            final(self).tokens@ == old(self).tokens@,
            final(self).max_depth == old(self).max_depth,
            r is Ok ==> final(self).current_token > old(self).current_token,
            final(self).step_matches(r, parse_level(old(self).tokens@, old(self).current_token as int, depth as nat, 0)),
        decreases depth, 0nat, 2int,
    {
        if self.match_token(&vec![UTokenType::Number]) {
            let prev = self.previous().duplicate();
            return Ok(Expression::NumberLiteral { token: prev });
        }
        if self.match_token(&vec![UTokenType::Left]) {
            if depth == 0 {
                return Err(ParseError::TooDeep);
            }
            let expr = self.add(depth - 1)?;
            if !self.match_token(&vec![UTokenType::Right]) {
                return Err(ParseError::UnexpectedToken);
            }
            return Ok(Expression::GroupingExpression { expression: Box::new(expr) });
        }
        Err(ParseError::UnexpectedToken)
    }

    /// Folds operators of the level above `repeating` into `start`, left to
    /// right, each with its operand parsed by `repeating`.
    fn parse_binary(
        &mut self,
        start: Expression,
        repeating: ECallNext,
        tokens: Vec<UTokenType>,
        depth: usize,
    ) -> (r: Result<Expression, ParseError>)
        requires
            old(self).wf(),
            rank(repeating) < 3,
            forall|t: UTokenType| tokens@.contains(t) <==> is_level_op(rank(repeating) + 1, t),
        ensures
            final(self).wf(),
            final(self).tokens@ == old(self).tokens@,
            final(self).max_depth == old(self).max_depth,
            r is Ok ==> final(self).current_token >= old(self).current_token,
            final(self).step_matches(
                r,
                fold_level(old(self).tokens@, old(self).current_token as int, depth as nat, rank(repeating) + 1, start),
            ),
        decreases depth, rank(repeating) + 1, 1int,
    {
        let ghost lvl: nat = rank(repeating) + 1;
        let ghost toks = self.tokens@;
        let ghost start_pos = self.current_token as int;
        let mut expression = start;
        loop
            invariant
                self.wf(),
                self.tokens@ == toks,
                toks == old(self).tokens@,
                start_pos == old(self).current_token,
                self.max_depth == old(self).max_depth,
                self.current_token >= start_pos,
                lvl == rank(repeating) + 1,
                lvl <= 3,
                forall|t: UTokenType| tokens@.contains(t) <==> is_level_op(lvl, t),
                fold_level(toks, self.current_token as int, depth as nat, lvl, expression)
                    == fold_level(toks, start_pos, depth as nat, lvl, start),
            decreases toks.len() - self.current_token,
        {
            if !self.match_token(&tokens) {
                return Ok(expression);
            }
            let p = self.previous().duplicate();
            let rep = self.call_next(repeating, depth)?;
            expression = Expression::BinaryExpression {
                left: Box::new(expression),
                right: Box::new(rep),
                token: p,
            };
        }
    }

    /// Moves past the current token, unless at the end, and gives the last
    /// token passed.
    fn advance(&mut self) -> (r: &UToken)
        requires
            old(self).wf(),
            old(self).current_token > 0 || old(self).tokens@.len() > 0,
        ensures
            final(self).tokens@ == old(self).tokens@,
            final(self).max_depth == old(self).max_depth,
            final(self).wf(),
            final(self).current_token == if old(self).current_token < old(self).tokens@.len() {
                old(self).current_token + 1
            } else {
                old(self).current_token as int
            },
            *r == final(self).tokens@[final(self).current_token - 1],
    {
        if self.current_token < self.tokens.len() {
            self.current_token = self.current_token + 1;
        }
        self.previous()
    }

    /// Moves past the current token when its kind is one of `types`.
    fn match_token(&mut self, types: &Vec<UTokenType>) -> (r: bool)
        requires
            old(self).wf(),
        ensures
            r == (old(self).current_token < old(self).tokens@.len() && types@.contains(
                old(self).tokens@[old(self).current_token as int]._type,
            )),
            final(self).tokens@ == old(self).tokens@,
            final(self).max_depth == old(self).max_depth,
            final(self).wf(),
            final(self).current_token == if r {
                old(self).current_token + 1
            } else {
                old(self).current_token as int
            },
    {
        let mut has_m = false;
        let mut i: usize = 0;
        while i < types.len()
            invariant
                i <= types@.len(),
                self.wf(),
                *self == *old(self),
                has_m == exists|k: int| 0 <= k < i && self.check_spec(#[trigger] types@[k]),
            decreases types.len() - i,
        {
            if self.check(types[i]) {
                has_m = true;
            }
            i += 1;
        }
        if has_m {
            self.advance();
        }
        has_m
    }

    spec fn check_spec(&self, t: UTokenType) -> bool {
        self.current_token < self.tokens@.len() && self.tokens@[self.current_token as int]._type == t
    }

    fn check(&self, t: UTokenType) -> (r: bool)
        requires
            self.wf(),
        ensures
            r == self.check_spec(t),
    {
        if self.is_end() {
            return false;
        }
        t == self.peek()._type
    }

    fn previous(&self) -> (r: &UToken)
        requires
            0 < self.current_token <= self.tokens@.len(),
        ensures
            *r == self.tokens@[self.current_token - 1],
    {
        &self.tokens[self.current_token - 1]
    }

    fn peek(&self) -> (r: &UToken)
        requires
            self.current_token < self.tokens@.len(),
        ensures
            *r == self.tokens@[self.current_token as int],
    {
        &self.tokens[self.current_token]
    }

    fn is_end(&self) -> (r: bool)
        ensures
            r == (self.current_token >= self.tokens@.len()),
    {
        self.current_token >= self.tokens.len()
    }

    /// A parser with no input and the default nesting limit.
    pub fn new() -> (r: AstParser)
        ensures
            r.spec_tokens().len() == 0,
            r.spec_position() == 0,
            r.spec_max_depth() == DEFAULT_MAX_DEPTH,
            r.wf(),
    {
        AstParser { tokens: vec![], current_token: 0, max_depth: DEFAULT_MAX_DEPTH }
    }

    /// A parser with no input that allows `max_depth` levels of parentheses.
    pub fn with_max_depth(max_depth: usize) -> (r: AstParser)
        ensures
            r.spec_tokens().len() == 0,
            r.spec_position() == 0,
            r.spec_max_depth() == max_depth,
            r.wf(),
    {
        AstParser { tokens: vec![], current_token: 0, max_depth }
    }

    fn call_next(&mut self, next_call: ECallNext, depth: usize) -> (r: Result<Expression, ParseError>)
        requires
            old(self).wf(),
        ensures
            final(self).wf(),
            final(self).tokens@ == old(self).tokens@,
            final(self).max_depth == old(self).max_depth,
            r is Ok ==> final(self).current_token > old(self).current_token,
            final(self).step_matches(
                r,
                parse_level(old(self).tokens@, old(self).current_token as int, depth as nat, rank(next_call)),
            ),
        decreases depth, rank(next_call), 3int,
    {
        match next_call {
            ECallNext::Pow => self.pow(depth),
            ECallNext::Group => self.group(depth),
            ECallNext::Add => self.add(depth),
            ECallNext::Mul => self.mul(depth),
        }
    }
}

} // verus!
