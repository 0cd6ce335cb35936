use crate::common::{ScanError, UToken, UTokenType};
use vstd::prelude::*;
use vstd::string::*;

verus! {

pub open spec fn is_digit_spec(c: char) -> bool {
    '0' <= c && c <= '9'
}

/// The first position at or after `i` that does not hold a digit.
pub open spec fn run_end(s: Seq<char>, i: int) -> int
    decreases s.len() - i,
{
    if 0 <= i < s.len() && is_digit_spec(s[i]) {
        run_end(s, i + 1)
    } else {
        i
    }
}

/// The token kind of a single-character operator or parenthesis.
pub open spec fn operator_kind(c: char) -> Option<UTokenType> {
    if c == '+' {
        Some(UTokenType::Plus)
    } else if c == '-' {
        Some(UTokenType::Minus)
    } else if c == '*' {
        Some(UTokenType::Star)
    } else if c == '/' {
        Some(UTokenType::Div)
    } else if c == '(' {
        Some(UTokenType::Left)
    } else if c == ')' {
        Some(UTokenType::Right)
    } else if c == '^' {
        Some(UTokenType::Pow)
    } else {
        None
    }
}

/// Puts `done` in front of the tokens of a successful scan.
pub open spec fn prepend(
    done: Seq<(UTokenType, Option<Seq<char>>)>,
    r: Result<Seq<(UTokenType, Option<Seq<char>>)>, ScanError>,
) -> Result<Seq<(UTokenType, Option<Seq<char>>)>, ScanError> {
    match r {
        Ok(rest) => Ok(done + rest),
        Err(e) => Err(e),
    }
}

/// The tokens of `s` from position `i` on, or the first error met.
pub open spec fn scan_from(s: Seq<char>, i: int) -> Result<
    Seq<(UTokenType, Option<Seq<char>>)>,
    ScanError,
>
    decreases s.len() - i,
{
    if i < 0 || i >= s.len() {
        Ok(seq![])
    } else if is_digit_spec(s[i]) {
        let j = run_end(s, i);
        let d = s.subrange(i, j);
        if j <= i || j > s.len() {
            Err(ScanError::InvalidNumber)
        } else {
            prepend(seq![(UTokenType::Number, Some(d))], scan_from(s, j))
        }
    } else {
        match operator_kind(s[i]) {
            Some(k) => prepend(seq![(k, None::<Seq<char>>)], scan_from(s, i + 1)),
            None => Err(ScanError::UnrecognizedCharacter),
        }
    }
}

/// The tokens of the whole input.
pub open spec fn tokenize(s: Seq<char>) -> Result<Seq<(UTokenType, Option<Seq<char>>)>, ScanError> {
    scan_from(s, 0)
}

pub open spec fn token_views(v: Seq<UToken>) -> Seq<(UTokenType, Option<Seq<char>>)> {
    v.map_values(|t: UToken| t@)
}

/// Whether `r` holds exactly the tokens that `spec` describes.
pub open spec fn scan_matches(
    r: Result<Vec<UToken>, ScanError>,
    spec: Result<Seq<(UTokenType, Option<Seq<char>>)>, ScanError>,
) -> bool {
    match r {
        Ok(v) => spec == Ok::<_, ScanError>(token_views(v@)),
        Err(e) => spec == Err::<Seq<(UTokenType, Option<Seq<char>>)>, ScanError>(e),
    }
}

pub(crate) proof fn lemma_run_end_bounds(s: Seq<char>, i: int)
    requires
        0 <= i <= s.len(),
    ensures
        i <= run_end(s, i) <= s.len(),
        forall|k: int| i <= k < run_end(s, i) ==> is_digit_spec(#[trigger] s[k]),
        run_end(s, i) < s.len() ==> !is_digit_spec(s[run_end(s, i)]),
    decreases s.len() - i,
{
    if i < s.len() && is_digit_spec(s[i]) {
        lemma_run_end_bounds(s, i + 1);
    }
}

/// Turns arithmetic expression text into tokens.
pub struct ExprScanner {}

impl ExprScanner {
    /// Tokens of `input`, in source order.
    pub fn parse(&self, input: String) -> (r: Result<Vec<UToken>, ScanError>)
        ensures
            scan_matches(r, tokenize(input@)),
    {
        self.break_tokens(&input)
    }

    /// Tokens of `input`, in source order; positions count characters.
    pub fn break_tokens(&self, input: &String) -> (r: Result<Vec<UToken>, ScanError>)
        ensures
            scan_matches(r, tokenize(input@)),
    {
        let s = input.as_str();
        let n = s.unicode_len();
        let mut v: Vec<UToken> = Vec::new();
        let mut index: usize = 0;
        assert(token_views(v@) + seq![] =~= seq![]);
        while index < n
            invariant
                n == input@.len(),
                s@ == input@,
                index <= n,
                tokenize(input@) == prepend(token_views(v@), scan_from(input@, index as int)),
            decreases n - index,
        {
            let c: char = s.get_char(index);
            if ExprScanner::is_digit(c) {
                let res = ExprScanner::parse_number(index, input);
                match res {
                    Err(x) => {
                        return Err(x);
                    },
                    Ok((j, tok)) => {
                        proof {
                            let d = input@.subrange(index as int, j + 1);
                            assert(token_views(v@.push(tok)) =~= token_views(v@) + seq![(UTokenType::Number, Some(d))]);
                            let rest = scan_from(input@, j + 1);
                            if rest is Ok {
                                assert(token_views(v@) + (seq![(UTokenType::Number, Some(d))] + rest->Ok_0)
                                    =~= token_views(v@.push(tok)) + rest->Ok_0);
                            }
                        }
                        v.push(tok);
                        index = j + 1;
                    },
                }
            } else {
                let res = ExprScanner::parse_operator(index, input);
                match res {
                    Err(x) => {
                        return Err(x);
                    },
                    Ok((j, tok)) => {
                        proof {
                            let k = tok._type;
                            assert(token_views(v@.push(tok)) =~= token_views(v@) + seq![(k, None::<Seq<char>>)]);
                            let rest = scan_from(input@, j as int + 1);
                            if rest is Ok {
                                assert(token_views(v@) + (seq![(k, None::<Seq<char>>)] + rest->Ok_0)
                                    =~= token_views(v@.push(tok)) + rest->Ok_0);
                            }
                        }
                        v.push(tok);
                        index = j + 1;
                    },
                }
            }
        }
        assert(token_views(v@) + seq![] =~= token_views(v@));
        Ok(v)
    }

    /// Whether `c` is an ASCII decimal digit.
    fn is_digit(c: char) -> (r: bool)
        ensures
            r == is_digit_spec(c),
    {
        '0' <= c && c <= '9'
    }

    /// Reads the digit run that starts at `from_index`: the index of its
    /// last digit and its number token.
    fn parse_number(from_index: usize, input_str: &String) -> (r: Result<(usize, UToken), ScanError>)
        requires
            from_index < input_str@.len(),
            is_digit_spec(input_str@[from_index as int]),
        ensures
            ({
                let j = run_end(input_str@, from_index as int);
                let d = input_str@.subrange(from_index as int, j);
                match r {
                    Ok((e, tok)) => e + 1 == j && from_index <= e < input_str@.len() && tok@ == (
                        UTokenType::Number,
                        Some(d),
                    ),
                    Err(_) => false,
                }
            }),
    {
        let s = input_str.as_str();
        let len = s.unicode_len();
        let ghost sq = input_str@;
        let mut fin_index: usize = from_index;
        proof {
            lemma_run_end_bounds(sq, from_index as int);
            lemma_run_end_bounds(sq, from_index as int + 1);
        }
        while fin_index < len && ExprScanner::is_digit(s.get_char(fin_index))
            invariant
                sq == input_str@,
                s@ == sq,
                len == sq.len(),
                from_index <= fin_index <= len,
                forall|k: int| from_index <= k < fin_index ==> is_digit_spec(#[trigger] sq[k]),
                run_end(sq, fin_index as int) == run_end(sq, from_index as int),
            decreases len - fin_index,
        {
            fin_index = fin_index + 1;
        }
        if fin_index == from_index {
            return Err(ScanError::InvalidNumber);
        }
        let sl = s.substring_char(from_index, fin_index);
        let tok = UToken::number(String::from_str(sl));
        Ok((fin_index - 1, tok))
    }

    /// Reads the operator or parenthesis at `from_index`.
    fn parse_operator(from_index: usize, input_str: &String) -> (r: Result<(usize, UToken), ScanError>)
        requires
            from_index < input_str@.len(),
        ensures
            match r {
                Ok((e, tok)) => e == from_index && operator_kind(input_str@[from_index as int])
                    == Some(tok._type) && tok._val is None,
                Err(x) => x == ScanError::UnrecognizedCharacter && operator_kind(
                    input_str@[from_index as int],
                ) is None,
            },
    {
        let c = input_str.as_str().get_char(from_index);
        let token_type = if c == '+' {
            UTokenType::Plus
        } else if c == '-' {
            UTokenType::Minus
        } else if c == '*' {
            UTokenType::Star
        } else if c == '/' {
            UTokenType::Div
        } else if c == '(' {
            UTokenType::Left
        } else if c == ')' {
            UTokenType::Right
        } else if c == '^' {
            UTokenType::Pow
        } else {
            return Err(ScanError::UnrecognizedCharacter);
        };
        Ok((from_index, UToken::new(token_type)))
    }
}

} // verus!
