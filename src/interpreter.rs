//! The evaluator: it pulls tokens from the scanner and computes values as it
//! parses, one procedure per grammar rule.

use vstd::prelude::*;
use crate::token::{Token, TokenView};
use crate::tokenizer::{CharClass, Tokenizer, classes_of, lemma_scan_bounds};
use crate::environment::Environment;
use crate::error::{Construct, EvalError, EvalErrorView};
use crate::semantics::{
    Outcome,
    remaining,
    lookahead,
    width,
    starts_operand,
    lemma_token_consumes,
    lemma_assignment_consumes,
    expression,
    expression_prime,
    term,
    term_prime,
    factor,
    assignment,
    program,
    evaluate,
};

verus! {

proof fn lemma_product_bounds(a: i32, b: i32)
    ensures
        -0x4000_0000_0000_0000 <= a as int * b as int <= 0x4000_0000_0000_0000,
{
    assert(-0x4000_0000_0000_0000 <= a as int * b as int <= 0x4000_0000_0000_0000) by (nonlinear_arith)
        requires
            -0x8000_0000 <= a <= 0x7fff_ffff,
            -0x8000_0000 <= b <= 0x7fff_ffff,
    ;
}

/// Whether an executable result `r`, got by moving from position `from` to
/// `to`, is the outcome `o` of a rule.
pub open spec fn agrees(r: Result<i32, EvalError>, o: Outcome, from: nat, to: nat) -> bool {
    match r {
        Ok(v) => from <= to && o == Outcome::Ok((v, (to - from) as nat)),
        Err(e) => o == Outcome::Err(e@),
    }
}

/// Evaluates a program while parsing it: the lookahead token, the scanner
/// behind it and the bindings made so far.
pub struct Interpreter {
    values: Environment,
    tokenizer: Tokenizer,
    input_token: Token,
    at: Ghost<nat>,
}

impl Interpreter {
    /// The source text.
    pub closed spec fn source(&self) -> Seq<char> {
        self.tokenizer.source()
    }

    /// The class of each character of the source text.
    pub closed spec fn classes(&self) -> Seq<CharClass> {
        self.tokenizer.classes()
    }

    pub closed spec fn wf(&self) -> bool {
        self.tokenizer.wf() && self.values.wf()
    }

    /// The bindings made so far.
    pub closed spec fn env(&self) -> Map<Seq<char>, i32> {
        self.values@
    }

    /// The position of the scanner in the source text.
    pub closed spec fn cursor(&self) -> nat {
        self.tokenizer.cursor()
    }

    /// The lookahead token.
    pub closed spec fn lookahead_token(&self) -> TokenView {
        self.input_token@
    }

    /// The lookahead token is the one at `at`, and the scanner stands after it.
    spec fn ready(&self) -> bool {
        &&& self.wf()
        &&& self.at@ <= self.source().len()
        &&& self.input_token@ == lookahead(self.source(), self.classes(), self.at@)
        &&& self.tokenizer.cursor() == self.at@ + width(self.source(), self.classes(), self.at@)
    }

    pub fn new(input: &str) -> (r: Interpreter)
        ensures
            r.wf(),
            r.source() == input@,
            r.classes() == classes_of(input@),
            r.env() == Map::<Seq<char>, i32>::empty(),
            r.cursor() == 0,
            r.lookahead_token() == TokenView::EndOfFile,
    {
        Interpreter {
            tokenizer: Tokenizer::new(input),
            input_token: Token::EndOfFile,
            values: Environment::new(),
            at: Ghost(0),
        }
    }

    /// An interpreter over the text of `tokenizer`, read from its start.
    pub fn from_tokenizer(tokenizer: Tokenizer) -> (r: Interpreter)
        requires
            tokenizer.wf(),
        ensures
            r.wf(),
            r.source() == tokenizer.source(),
            r.classes() == tokenizer.classes(),
            r.env() == Map::<Seq<char>, i32>::empty(),
            r.cursor() == tokenizer.cursor(),
            r.lookahead_token() == TokenView::EndOfFile,
    {
        Interpreter { tokenizer, input_token: Token::EndOfFile, values: Environment::new(), at: Ghost(0) }
    }

    /// Runs the whole source from empty bindings: the final bindings, or the
    /// first error met.
    pub fn run(&mut self) -> (r: Result<Environment, EvalError>)
        requires
            old(self).wf(),
        ensures
            final(self).wf(),
            final(self).source() == old(self).source(),
            final(self).classes() == old(self).classes(),
            match r {
                Ok(env) => env.wf() && evaluate(old(self).source(), old(self).classes()) == Ok::<
                    Map<Seq<char>, i32>,
                    EvalErrorView,
                >(env@),
                Err(e) => evaluate(old(self).source(), old(self).classes()) == Err::<Map<Seq<char>, i32>, EvalErrorView>(
                    e@,
                ),
            },
    {
        self.tokenizer.rewind();
        self.values = Environment::new();
        proof {
            lemma_scan_bounds(self.source(), self.classes(), 0);
        }
        self.input_token = self.tokenizer.next();
        self.at = Ghost(0);
        match self.program() {
            Err(e) => return Err(e),
            Ok(()) => {},
        }
        match self.match_token(Token::EndOfFile) {
            Err(e) => return Err(e),
            Ok(()) => {},
        }
        let mut out = Environment::new();
        std::mem::swap(&mut out, &mut self.values);
        Ok(out)
    }

    /// Moves the lookahead one token on.
    fn consume(&mut self)
        requires
            old(self).ready(),
        ensures
            final(self).ready(),
            final(self).source() == old(self).source(),
            final(self).classes() == old(self).classes(),
            final(self).env() == old(self).env(),
            final(self).at@ == old(self).at@ + width(old(self).source(), old(self).classes(), old(self).at@),
    {
        proof {
            lemma_scan_bounds(self.source(), self.classes(), self.at@);
            lemma_scan_bounds(self.source(), self.classes(), self.tokenizer.cursor());
        }
        let ghost next_at = self.tokenizer.cursor();
        self.input_token = self.tokenizer.next();
        self.at = Ghost(next_at);
    }

    /// Consumes the lookahead if it is `expected`, and fails otherwise.
    fn match_token(&mut self, expected: Token) -> (r: Result<(), EvalError>)
        requires
            old(self).ready(),
        ensures
            final(self).ready(),
            final(self).source() == old(self).source(),
            final(self).classes() == old(self).classes(),
            final(self).env() == old(self).env(),
            match r {
                Ok(()) => lookahead(old(self).source(), old(self).classes(), old(self).at@) == expected@
                    && final(self).at@ == old(self).at@ + width(old(self).source(), old(self).classes(), old(self).at@),
                Err(e) => final(self).at@ == old(self).at@ && lookahead(old(self).source(), old(self).classes(), old(self).at@) != expected@ && e@
                    == (EvalErrorView::UnexpectedToken {
                    expected: expected@,
                    found: lookahead(old(self).source(), old(self).classes(), old(self).at@),
                }),
            },
    {
        if !self.input_token.same_as(&expected) {
            Err(EvalError::UnexpectedToken { expected, found: self.input_token.duplicate() })
        } else {
            self.consume();
            Ok(())
        }
    }

    fn program(&mut self) -> (r: Result<(), EvalError>)
        requires
            old(self).ready(),
        ensures
            final(self).ready(),
            final(self).source() == old(self).source(),
            final(self).classes() == old(self).classes(),
            match r {
                Ok(()) => program(old(self).source(), old(self).classes(), old(self).env(), old(self).at@) == Ok::<
                    Map<Seq<char>, i32>,
                    EvalErrorView,
                >(final(self).env()) && final(self).input_token@ == TokenView::EndOfFile,
                Err(e) => program(old(self).source(), old(self).classes(), old(self).env(), old(self).at@) == Err::<
                    Map<Seq<char>, i32>,
                    EvalErrorView,
                >(e@),
            },
    {
        let ghost s = self.source();
        let ghost k = self.classes();
        let ghost whole = program(s, k, self.env(), self.at@);
        loop
            invariant
                self.ready(),
                self.source() == s,
                s == old(self).source(),
                k == old(self).classes(),
                self.classes() == k,
                whole == program(s, k, old(self).env(), old(self).at@),
                whole == program(s, k, self.env(), self.at@),
            decreases remaining(s, self.at@),
        {
            let ghost before = self.at@;
            proof {
                lemma_assignment_consumes(s, k, self.env(), before);
            }
            match self.assignment() {
                Err(e) => return Err(e),
                Ok(_) => {},
            }
            if matches!(self.input_token, Token::EndOfFile) {
                return Ok(());
            }
        }
    }

    fn assignment(&mut self) -> (r: Result<i32, EvalError>)
        requires
            old(self).ready(),
        ensures
            final(self).ready(),
            final(self).source() == old(self).source(),
            final(self).classes() == old(self).classes(),
            match r {
                Ok(v) => old(self).at@ <= final(self).at@ && lookahead(old(self).source(), old(self).classes(), old(self).at@) is Id
                    && final(self).env() == old(self).env().insert(lookahead(old(self).source(), old(self).classes(), old(self).at@)->Id_0, v)
                    && assignment(
                    old(self).source(),
                    old(self).classes(),
                    old(self).env(),
                    old(self).at@,
                ) == Ok::<(Map<Seq<char>, i32>, nat), EvalErrorView>(
                    (final(self).env(), (final(self).at@ - old(self).at@) as nat),
                ),
                Err(e) => final(self).env() == old(self).env() && assignment(old(self).source(), old(self).classes(), old(self).env(), old(self).at@) == Err::<
                    (Map<Seq<char>, i32>, nat),
                    EvalErrorView,
                >(e@),
            },
    {
        proof {
            reveal(assignment);
        }
        match self.read_id() {
            Some(id) => {
                self.consume();
                match self.match_token(Token::Assign) {
                    Err(e) => return Err(e),
                    Ok(()) => {},
                }
                let v = match self.expression() {
                    Err(e) => return Err(e),
                    Ok(v) => v,
                };
                match self.match_token(Token::Semicolon) {
                    Err(e) => return Err(e),
                    Ok(()) => {},
                }
                self.values.set(id, v);
                Ok(v)
            },
            None => Err(
                EvalError::MalformedConstruct {
                    construct: Construct::Assignment,
                    found: self.input_token.duplicate(),
                },
            ),
        }
    }

    fn expression(&mut self) -> (r: Result<i32, EvalError>)
        requires
            old(self).ready(),
        ensures
            final(self).ready(),
            final(self).source() == old(self).source(),
            final(self).classes() == old(self).classes(),
            final(self).env() == old(self).env(),
            agrees(r, expression(old(self).source(), old(self).classes(), old(self).env(), old(self).at@), old(self).at@, final(self).at@),
            !starts_operand(lookahead(old(self).source(), old(self).classes(), old(self).at@)) ==> final(self).at@ == old(self).at@,
        decreases remaining(old(self).source(), old(self).at@), 2nat,
    {
        match self.input_token {
            Token::Id(_) | Token::Literal(_) | Token::LeftParenthesis | Token::Plus | Token::Minus => {
                let t = match self.term() {
                    Err(e) => return Err(e),
                    Ok(t) => t,
                };
                self.expression_prime(t)
            },
            _ => Err(
                EvalError::MalformedConstruct {
                    construct: Construct::Expression,
                    found: self.input_token.duplicate(),
                },
            ),
        }
    }

    /// Folds the rest of a sum onto `acc`, the value of what stands before it.
    fn expression_prime(&mut self, acc: i32) -> (r: Result<i32, EvalError>)
        requires
            old(self).ready(),
        ensures
            final(self).ready(),
            final(self).source() == old(self).source(),
            final(self).classes() == old(self).classes(),
            final(self).env() == old(self).env(),
            agrees(r, expression_prime(old(self).source(), old(self).classes(), old(self).env(), old(self).at@, acc), old(self).at@, final(self).at@),
        decreases remaining(old(self).source(), old(self).at@), 1nat,
    {
        proof {
            lemma_token_consumes(self.source(), self.classes(), self.at@);
        }
        let plus = match self.input_token {
            Token::Plus => true,
            Token::Minus => false,
            _ => return Ok(acc),
        };
        self.consume();
        let t = match self.term() {
            Err(e) => return Err(e),
            Ok(t) => t,
        };
        let sum: i64 = if plus {
            acc as i64 + t as i64
        } else {
            acc as i64 - t as i64
        };
        if sum < i32::MIN as i64 || sum > i32::MAX as i64 {
            return Err(EvalError::Overflow);
        }
        self.expression_prime(sum as i32)
    }

    fn term(&mut self) -> (r: Result<i32, EvalError>)
        requires
            old(self).ready(),
        ensures
            final(self).ready(),
            final(self).source() == old(self).source(),
            final(self).classes() == old(self).classes(),
            final(self).env() == old(self).env(),
            agrees(r, term(old(self).source(), old(self).classes(), old(self).env(), old(self).at@), old(self).at@, final(self).at@),
            !starts_operand(lookahead(old(self).source(), old(self).classes(), old(self).at@)) ==> final(self).at@ == old(self).at@,
        decreases remaining(old(self).source(), old(self).at@), 1nat,
    {
        match self.input_token {
            Token::Id(_) | Token::Literal(_) | Token::LeftParenthesis | Token::Plus | Token::Minus => {
                let f = match self.factor() {
                    Err(e) => return Err(e),
                    Ok(f) => f,
                };
                self.term_prime(f)
            },
            _ => Err(
                EvalError::MalformedConstruct {
                    construct: Construct::Term,
                    found: self.input_token.duplicate(),
                },
            ),
        }
    }

    /// Folds the rest of a product onto `acc`, the value of what stands before it.
    fn term_prime(&mut self, acc: i32) -> (r: Result<i32, EvalError>)
        requires
            old(self).ready(),
        ensures
            final(self).ready(),
            final(self).source() == old(self).source(),
            final(self).classes() == old(self).classes(),
            final(self).env() == old(self).env(),
            agrees(r, term_prime(old(self).source(), old(self).classes(), old(self).env(), old(self).at@, acc), old(self).at@, final(self).at@),
        decreases remaining(old(self).source(), old(self).at@), 0nat,
    {
        proof {
            lemma_token_consumes(self.source(), self.classes(), self.at@);
        }
        match self.input_token {
            Token::Multiply => {},
            _ => return Ok(acc),
        }
        self.consume();
        let f = match self.factor() {
            Err(e) => return Err(e),
            Ok(f) => f,
        };
        proof {
            lemma_product_bounds(acc, f);
        }
        let product: i64 = acc as i64 * f as i64;
        if product < i32::MIN as i64 || product > i32::MAX as i64 {
            return Err(EvalError::Overflow);
        }
        self.term_prime(product as i32)
    }

    /// The name in the lookahead token, if it is an identifier.
    fn read_id(&self) -> (r: Option<String>)
        requires
            self.ready(),
        ensures
            match lookahead(self.source(), self.classes(), self.at@) {
                TokenView::Id(name) => r is Some && r->0@ == name,
                _ => r is None,
            },
    {
        match &self.input_token {
            Token::Id(id) => Some(id.clone()),
            _ => None,
        }
    }

    fn factor(&mut self) -> (r: Result<i32, EvalError>)
        requires
            old(self).ready(),
        ensures
            final(self).ready(),
            final(self).source() == old(self).source(),
            final(self).classes() == old(self).classes(),
            final(self).env() == old(self).env(),
            agrees(r, factor(old(self).source(), old(self).classes(), old(self).env(), old(self).at@), old(self).at@, final(self).at@),
            !starts_operand(lookahead(old(self).source(), old(self).classes(), old(self).at@)) ==> final(self).at@ == old(self).at@,
            lookahead(old(self).source(), old(self).classes(), old(self).at@) is Id && r is Err ==> final(self).at@ == old(self).at@ + width(old(self).source(), old(self).classes(), old(self).at@),
        decreases remaining(old(self).source(), old(self).at@), 0nat,
    {
        proof {
            lemma_token_consumes(self.source(), self.classes(), self.at@);
        }
        match self.input_token {
            Token::Id(_) => {
                let id = match self.read_id() {
                    Some(id) => id,
                    None => {
                        return Err(
                            EvalError::MalformedConstruct {
                                construct: Construct::Factor,
                                found: self.input_token.duplicate(),
                            },
                        )
                    },
                };
                self.consume();
                match self.values.lookup(&id) {
                    Some(v) => Ok(v),
                    None => Err(EvalError::UninitializedVariable { name: id }),
                }
            },
            Token::Literal(lit) => {
                self.consume();
                Ok(lit)
            },
            Token::LeftParenthesis => {
                self.consume();
                let val = match self.expression() {
                    Err(e) => return Err(e),
                    Ok(v) => v,
                };
                match self.match_token(Token::RightParenthesis) {
                    Err(e) => return Err(e),
                    Ok(()) => {},
                }
                Ok(val)
            },
            Token::Plus => {
                self.consume();
                self.factor()
            },
            Token::Minus => {
                self.consume();
                let val = match self.factor() {
                    Err(e) => return Err(e),
                    Ok(v) => v,
                };
                if val == i32::MIN {
                    return Err(EvalError::Overflow);
                }
                Ok(-val)
            },
            _ => Err(
                EvalError::MalformedConstruct {
                    construct: Construct::Factor,
                    found: self.input_token.duplicate(),
                },
            ),
        }
    }
}

} // verus!
