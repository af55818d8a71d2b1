use vstd::prelude::*;
use crate::lexer::{Keyword, Literal, LiteralValue, Operator, Token};

verus! {

/// A node of the syntax tree; every node owns its children.
#[derive(Debug, PartialEq)]
pub enum SyntaxNode {
    /// The root: the top-level nodes in source order.
    Program(Vec<Box<SyntaxNode>>),
    Function { name: String, parameters: Vec<String>, return_type: String, body: Box<SyntaxNode> },
    Block(Vec<Box<SyntaxNode>>),
    ReturnStatement(Box<SyntaxNode>),
    Literals(Literal),
    Identifier(String),
    UnaryExpression { operator: Operator, operand: Box<SyntaxNode> },
    BinaryExpression { operator: Operator, left: Box<SyntaxNode>, right: Box<SyntaxNode> },
    Empty,
}

/// Why parsing stopped.
#[derive(Debug, Clone, Copy, PartialEq, Eq, Structural)]
pub enum ParseError {
    /// The tokens ran out where a node or a closing brace was expected.
    UnexpectedEnd,
    /// No rule matches the token at this index.
    UnexpectedToken(usize),
}

/// The mathematical model of a syntax tree.
pub enum Ast {
    Program(Seq<Ast>),
    Function { name: Seq<char>, parameters: Seq<Seq<char>>, return_type: Seq<char>, body: Box<Ast> },
    Block(Seq<Ast>),
    ReturnStatement(Box<Ast>),
    Literals(LiteralValue),
    Identifier(Seq<char>),
    UnaryExpression { operator: Operator, operand: Box<Ast> },
    BinaryExpression { operator: Operator, left: Box<Ast>, right: Box<Ast> },
    Empty,
}

pub open spec fn views(s: Seq<Box<SyntaxNode>>) -> Seq<Ast>
    decreases s,
{
    if s.len() == 0 {
        Seq::empty()
    } else {
        seq![s[0].view()] + views(s.subrange(1, s.len() as int))
    }
}

impl SyntaxNode {
    pub open spec fn view(&self) -> Ast
        decreases self,
    {
        match self {
            SyntaxNode::Program(v) => Ast::Program(views(v@)),
            SyntaxNode::Function { name, parameters, return_type, body } => Ast::Function {
                name: name@,
                parameters: parameters@.map_values(|p: String| p@),
                return_type: return_type@,
                body: Box::new(body.view()),
            },
            SyntaxNode::Block(v) => Ast::Block(views(v@)),
            SyntaxNode::ReturnStatement(c) => Ast::ReturnStatement(Box::new(c.view())),
            SyntaxNode::Literals(l) => Ast::Literals(l.view()),
            SyntaxNode::Identifier(x) => Ast::Identifier(x@),
            SyntaxNode::UnaryExpression { operator, operand } => Ast::UnaryExpression {
                operator: *operator,
                operand: Box::new(operand.view()),
            },
            SyntaxNode::BinaryExpression { operator, left, right } => Ast::BinaryExpression {
                operator: *operator,
                left: Box::new(left.view()),
                right: Box::new(right.view()),
            },
            SyntaxNode::Empty => Ast::Empty,
        }
    }
}

/// Tokens that the parser passes over between nodes.
pub open spec fn is_skipped(t: Token) -> bool {
    t is Whitespace || t is Comment || t is Semicolon
}

pub open spec fn ident_text(t: Token) -> Seq<char> {
    match t {
        Token::Identifier(x) => x@,
        _ => Seq::empty(),
    }
}

/// `Identifier(return type)`, `Whitespace`, `Identifier(name)`, `(`, `)` at `p`.
pub open spec fn is_function_header(toks: Seq<Token>, p: int) -> bool {
    0 <= p && p + 5 <= toks.len() && toks[p] is Identifier && toks[p + 1] is Whitespace
        && toks[p + 2] is Identifier && toks[p + 3] is OpenParenthesis && toks[p + 4] is CloseParenthesis
}

/// The node that starts at the first token from `p` that is not skipped, with
/// the index just past it.
pub open spec fn item_at(toks: Seq<Token>, p: int) -> Result<(Ast, int), ParseError>
    decreases toks.len() - p, 1int,
{
    if !(0 <= p < toks.len()) {
        Err(ParseError::UnexpectedEnd)
    } else if is_skipped(toks[p]) {
        item_at(toks, p + 1)
    } else {
        node_at(toks, p)
    }
}

/// The node that starts at `p`, by the first rule that matches: function,
/// block, return statement, literal.
pub open spec fn node_at(toks: Seq<Token>, p: int) -> Result<(Ast, int), ParseError>
    decreases toks.len() - p, 0int,
{
    if !(0 <= p < toks.len()) {
        Err(ParseError::UnexpectedEnd)
    } else if is_function_header(toks, p) {
        match item_at(toks, p + 5) {
            Ok((body, e)) => Ok(
                (
                    Ast::Function {
                        name: ident_text(toks[p + 2]),
                        parameters: Seq::empty(),
                        return_type: ident_text(toks[p]),
                        body: Box::new(body),
                    },
                    e,
                ),
            ),
            Err(x) => Err(x),
        }
    } else if toks[p] is OpenBrace {
        match block_at(toks, p + 1) {
            Ok((items, e)) => Ok((Ast::Block(items), e)),
            Err(x) => Err(x),
        }
    } else if toks[p] == Token::Keyword(Keyword::Return) {
        match item_at(toks, p + 1) {
            Ok((n, e)) => Ok((Ast::ReturnStatement(Box::new(n)), e)),
            Err(x) => Err(x),
        }
    } else if toks[p] is Literal {
        Ok((Ast::Literals(toks[p]->Literal_0.view()), p + 1))
    } else {
        Err(ParseError::UnexpectedToken(p as usize))
    }
}

/// The statements of a block whose opening brace stands before `p`, with the
/// index just past its closing brace.
pub open spec fn block_at(toks: Seq<Token>, p: int) -> Result<(Seq<Ast>, int), ParseError>
    decreases toks.len() - p, 1int,
{
    if !(0 <= p < toks.len()) {
        Err(ParseError::UnexpectedEnd)
    } else if is_skipped(toks[p]) {
        block_at(toks, p + 1)
    } else if toks[p] is CloseBrace {
        Ok((Seq::empty(), p + 1))
    } else {
        match node_at(toks, p) {
            Ok((n, e)) => if p < e <= toks.len() {
                prepend_block(seq![n], block_at(toks, e))
            } else {
                Err(ParseError::UnexpectedToken(p as usize))
            },
            Err(x) => Err(x),
        }
    }
}

pub open spec fn prepend_block(pre: Seq<Ast>, r: Result<(Seq<Ast>, int), ParseError>) -> Result<
    (Seq<Ast>, int),
    ParseError,
> {
    match r {
        Ok((s, e)) => Ok((pre + s, e)),
        Err(x) => Err(x),
    }
}

pub open spec fn prepend_nodes(pre: Seq<Ast>, r: Result<Seq<Ast>, ParseError>) -> Result<
    Seq<Ast>,
    ParseError,
> {
    match r {
        Ok(s) => Ok(pre + s),
        Err(x) => Err(x),
    }
}

/// The top-level nodes from `p` to the end.
pub open spec fn nodes_from(toks: Seq<Token>, p: int) -> Result<Seq<Ast>, ParseError>
    decreases toks.len() - p,
{
    if !(0 <= p < toks.len()) {
        Ok(Seq::empty())
    } else if is_skipped(toks[p]) {
        nodes_from(toks, p + 1)
    } else {
        match node_at(toks, p) {
            Ok((n, e)) => if p < e <= toks.len() {
                prepend_nodes(seq![n], nodes_from(toks, e))
            } else {
                Err(ParseError::UnexpectedToken(p as usize))
            },
            Err(x) => Err(x),
        }
    }
}

/// The program that a token sequence parses to.
pub open spec fn parse_program(toks: Seq<Token>) -> Result<Ast, ParseError> {
    match nodes_from(toks, 0) {
        Ok(s) => Ok(Ast::Program(s)),
        Err(x) => Err(x),
    }
}

proof fn lemma_views_push(s: Seq<Box<SyntaxNode>>, b: Box<SyntaxNode>)
    ensures
        views(s.push(b)) == views(s) + seq![b.view()],
    decreases s.len(),
{
    let t = s.push(b);
    if s.len() > 0 {
        let rest = s.subrange(1, s.len() as int);
        lemma_views_push(rest, b);
        assert(t.subrange(1, t.len() as int) =~= rest.push(b));
        assert(views(t) == seq![t[0].view()] + views(t.subrange(1, t.len() as int)));
        assert(views(s) == seq![s[0].view()] + views(rest));
        assert(t[0] == s[0]);
        assert(seq![s[0].view()] + (views(rest) + seq![b.view()]) =~= seq![s[0].view()] + views(
            rest,
        ) + seq![b.view()]);
    } else {
        assert(t.subrange(1, t.len() as int) =~= Seq::<Box<SyntaxNode>>::empty());
        assert(views(t) == seq![t[0].view()] + views(t.subrange(1, t.len() as int)));
        assert(views(s) =~= Seq::<Ast>::empty());
        assert(views(Seq::<Box<SyntaxNode>>::empty()) =~= Seq::<Ast>::empty());
        assert(seq![b.view()] + Seq::<Ast>::empty() =~= seq![b.view()]);
        assert(Seq::<Ast>::empty() + seq![b.view()] =~= seq![b.view()]);
    }
}

fn skipped(t: &Token) -> (r: bool)
    ensures
        r == is_skipped(*t),
{
    match t {
        Token::Whitespace | Token::Comment | Token::Semicolon => true,
        _ => false,
    }
}

fn function_header(tokens: &Vec<Token>, p: usize) -> (r: Option<(String, String)>)
    requires
        p < tokens@.len(),
    ensures
        r is Some <==> is_function_header(tokens@, p as int),
        r matches Some((rt, name)) ==> rt@ == ident_text(tokens@[p as int]) && name@ == ident_text(
            tokens@[p + 2],
        ),
{
    if tokens.len() - p < 5 {
        return None;
    }
    match (&tokens[p], &tokens[p + 1], &tokens[p + 2], &tokens[p + 3], &tokens[p + 4]) {
        (
            Token::Identifier(rt),
            Token::Whitespace,
            Token::Identifier(name),
            Token::OpenParenthesis,
            Token::CloseParenthesis,
        ) => Some((rt.clone(), name.clone())),
        _ => None,
    }
}

impl SyntaxNode {
    /// Parses the node that starts at the first token from `pos` that the
    /// parser does not pass over.
    fn recursive_ast_gen(tokens: &Vec<Token>, pos: usize) -> (r: Result<(SyntaxNode, usize), ParseError>)
        ensures
            match r {
                Ok((n, e)) => item_at(tokens@, pos as int) == Ok::<(Ast, int), ParseError>((n.view(), e as int)) && pos < e
                    <= tokens@.len(),
                Err(x) => item_at(tokens@, pos as int) == Err::<(Ast, int), ParseError>(x),
            },
        decreases tokens@.len() - pos, 1int,
    {
        let mut q: usize = pos;
        while q < tokens.len() && skipped(&tokens[q])
            invariant
                pos <= q,
                item_at(tokens@, pos as int) == item_at(tokens@, q as int),
            decreases tokens@.len() - q,
        {
            q += 1;
        }
        if q >= tokens.len() {
            return Err(ParseError::UnexpectedEnd);
        }
        SyntaxNode::parse_node(tokens, q)
    }

    fn parse_node(tokens: &Vec<Token>, p: usize) -> (r: Result<(SyntaxNode, usize), ParseError>)
        requires
            p < tokens@.len(),
        ensures
            match r {
                Ok((n, e)) => node_at(tokens@, p as int) == Ok::<(Ast, int), ParseError>((n.view(), e as int)) && p < e
                    <= tokens@.len(),
                Err(x) => node_at(tokens@, p as int) == Err::<(Ast, int), ParseError>(x),
            },
        decreases tokens@.len() - p, 0int,
    {
        // The length is a usize, which bounds `p + 5` and `p + 1` below.
        let _len = tokens.len();
        if let Some((return_type, name)) = function_header(tokens, p) {
            let (body, e) = SyntaxNode::recursive_ast_gen(tokens, p + 5)?;
            let parameters: Vec<String> = Vec::new();
            assert(parameters@.map_values(|s: String| s@) =~= Seq::<Seq<char>>::empty());
            let n = SyntaxNode::Function {
                name,
                parameters,
                return_type,
                body: Box::new(body),
            };
            assert(n.view() == Ast::Function {
                name: ident_text(tokens@[p + 2]),
                parameters: Seq::empty(),
                return_type: ident_text(tokens@[p as int]),
                body: Box::new(body.view()),
            });
            return Ok((n, e));
        }
        match &tokens[p] {
            Token::OpenBrace => {
                let mut nodes: Vec<Box<SyntaxNode>> = Vec::new();
                let mut q: usize = p + 1;
                assert(views(nodes@) =~= Seq::<Ast>::empty());
                assert(block_at(tokens@, q as int) == prepend_block(views(nodes@), block_at(tokens@, q as int))) by {
                    match block_at(tokens@, q as int) {
                        Ok((s, e)) => {
                            assert(Seq::<Ast>::empty() + s =~= s);
                        },
                        Err(_) => {},
                    }
                }
                loop
                    invariant
                        p < q <= tokens@.len(),
                        node_at(tokens@, p as int) == match prepend_block(views(nodes@), block_at(tokens@, q as int)) {
                            Ok((items, e)) => Ok((Ast::Block(items), e)),
                            Err(x) => Err(x),
                        },
                    decreases tokens@.len() - q,
                {
                    if q >= tokens.len() {
                        return Err(ParseError::UnexpectedEnd);
                    }
                    if skipped(&tokens[q]) {
                        q += 1;
                    } else if let Token::CloseBrace = &tokens[q] {
                        let n = SyntaxNode::Block(nodes);
                        assert(views(nodes@) + Seq::<Ast>::empty() =~= views(nodes@));
                        return Ok((n, q + 1));
                    } else {
                        let (n, e) = SyntaxNode::parse_node(tokens, q)?;
                        proof {
                            lemma_views_push(nodes@, Box::new(n));
                            match block_at(tokens@, e as int) {
                                Ok((s, f)) => {
                                    assert(views(nodes@) + (seq![n.view()] + s) =~= views(nodes@)
                                        + seq![n.view()] + s);
                                },
                                Err(_) => {},
                            }
                        }
                        nodes.push(Box::new(n));
                        q = e;
                    }
                }
            },
            Token::Keyword(Keyword::Return) => {
                let (child, e) = SyntaxNode::recursive_ast_gen(tokens, p + 1)?;
                Ok((SyntaxNode::ReturnStatement(Box::new(child)), e))
            },
            Token::Literal(l) => Ok((SyntaxNode::Literals(l.duplicate()), p + 1)),
            _ => Err(ParseError::UnexpectedToken(p)),
        }
    }

    /// Parses the whole token sequence into a `Program` whose children are the
    /// top-level nodes in order. Whitespace, comments and semicolons between
    /// nodes are passed over.
    pub fn generate_ast(tokens: Vec<Token>) -> (r: Result<SyntaxNode, ParseError>)
        ensures
            match r {
                Ok(n) => parse_program(tokens@) == Ok::<Ast, ParseError>(n.view()),
                Err(x) => parse_program(tokens@) == Err::<Ast, ParseError>(x),
            },
    {
        let mut nodes: Vec<Box<SyntaxNode>> = Vec::new();
        let mut q: usize = 0;
        assert(views(nodes@) =~= Seq::<Ast>::empty());
        assert(nodes_from(tokens@, 0) == prepend_nodes(views(nodes@), nodes_from(tokens@, 0))) by {
            match nodes_from(tokens@, 0) {
                Ok(s) => {
                    assert(Seq::<Ast>::empty() + s =~= s);
                },
                Err(_) => {},
            }
        }
        while q < tokens.len()
            invariant
                q <= tokens@.len(),
                nodes_from(tokens@, 0) == prepend_nodes(views(nodes@), nodes_from(tokens@, q as int)),
            decreases tokens@.len() - q,
        {
            if skipped(&tokens[q]) {
                q += 1;
            } else {
                let (n, e) = SyntaxNode::parse_node(&tokens, q)?;
                proof {
                    lemma_views_push(nodes@, Box::new(n));
                    match nodes_from(tokens@, e as int) {
                        Ok(s) => {
                            assert(views(nodes@) + (seq![n.view()] + s) =~= views(nodes@) + seq![
                                n.view()
                            ] + s);
                        },
                        Err(_) => {},
                    }
                }
                nodes.push(Box::new(n));
                q = e;
            }
        }
        assert(views(nodes@) + Seq::<Ast>::empty() =~= views(nodes@));
        Ok(SyntaxNode::Program(nodes))
    }
}

} // verus!
