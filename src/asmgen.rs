use vstd::prelude::*;
use vstd::string::*;
use crate::lexer::{Literal, LiteralValue};
use crate::parser::{views, Ast, SyntaxNode};

verus! {

/// The generated assembly text and the name of the file it is meant for.
#[derive(Debug)]
pub struct AssemblerTargetFile {
    filename: String,
    content: String,
}

pub open spec fn digit_char(d: int) -> char {
    if d == 0 {
        '0'
    } else if d == 1 {
        '1'
    } else if d == 2 {
        '2'
    } else if d == 3 {
        '3'
    } else if d == 4 {
        '4'
    } else if d == 5 {
        '5'
    } else if d == 6 {
        '6'
    } else if d == 7 {
        '7'
    } else if d == 8 {
        '8'
    } else {
        '9'
    }
}

/// Decimal digits of `n`, most significant first.
pub open spec fn nat_digits(n: nat) -> Seq<char>
    decreases n,
{
    if n < 10 {
        seq![digit_char(n as int)]
    } else {
        nat_digits(n / 10) + seq![digit_char((n % 10) as int)]
    }
}

/// Decimal text of `v`, with a leading `-` when it is negative.
pub open spec fn decimal(v: int) -> Seq<char> {
    if v < 0 {
        seq!['-'] + nat_digits((-v) as nat)
    } else {
        nat_digits(v as nat)
    }
}

pub open spec fn globl_text() -> Seq<char> {
    seq!['.', 'g', 'l', 'o', 'b', 'l', ' ']
}

pub open spec fn newline_text() -> Seq<char> {
    seq!['\n']
}

pub open spec fn label_end_text() -> Seq<char> {
    seq![':', '\n']
}

pub open spec fn movl_text() -> Seq<char> {
    seq!['m', 'o', 'v', 'l', ' ', '$']
}

pub open spec fn eax_text() -> Seq<char> {
    seq![',', ' ', '%', 'e', 'a', 'x', '\n']
}

pub open spec fn ret_text() -> Seq<char> {
    seq!['r', 'e', 't', '\n']
}

/// Assembly for a sequence of nodes: their texts one after another.
pub open spec fn emit_all(s: Seq<Ast>) -> Seq<char>
    decreases s,
{
    if s.len() == 0 {
        Seq::empty()
    } else {
        emit_all(s.subrange(0, s.len() - 1)) + emit(s[s.len() - 1])
    }
}

/// Assembly for one node. A function is a global label followed by its body;
/// a return loads an integer literal into `%eax` and returns, and returns
/// without loading anything for any other child. Other nodes give no text.
pub open spec fn emit(a: Ast) -> Seq<char>
    decreases a,
{
    match a {
        Ast::Program(s) => emit_all(s),
        Ast::Block(s) => emit_all(s),
        Ast::Function { name, body, .. } => globl_text() + name + newline_text() + name
            + label_end_text() + emit(*body),
        Ast::ReturnStatement(c) => match *c {
            Ast::Literals(LiteralValue::Integer(v)) => movl_text() + decimal(v as int) + eax_text()
                + ret_text(),
            _ => ret_text(),
        },
        _ => Seq::empty(),
    }
}

fn digit_str(d: u64) -> (r: &'static str)
    requires
        d < 10,
    ensures
        r@ == seq![digit_char(d as int)],
{
    if d == 0 {
        proof { reveal_strlit("0"); }
        "0"
    } else if d == 1 {
        proof { reveal_strlit("1"); }
        "1"
    } else if d == 2 {
        proof { reveal_strlit("2"); }
        "2"
    } else if d == 3 {
        proof { reveal_strlit("3"); }
        "3"
    } else if d == 4 {
        proof { reveal_strlit("4"); }
        "4"
    } else if d == 5 {
        proof { reveal_strlit("5"); }
        "5"
    } else if d == 6 {
        proof { reveal_strlit("6"); }
        "6"
    } else if d == 7 {
        proof { reveal_strlit("7"); }
        "7"
    } else if d == 8 {
        proof { reveal_strlit("8"); }
        "8"
    } else {
        proof { reveal_strlit("9"); }
        "9"
    }
}

fn push_digits(out: &mut String, n: u64)
    ensures
        final(out)@ == old(out)@ + nat_digits(n as nat),
    decreases n,
{
    if n >= 10 {
        push_digits(out, n / 10);
    }
    out.append(digit_str(n % 10));
    proof {
        if n >= 10 {
            assert(old(out)@ + nat_digits((n / 10) as nat) + seq![digit_char((n % 10) as int)]
                =~= old(out)@ + nat_digits(n as nat));
        } else {
            assert(old(out)@ + seq![digit_char((n % 10) as int)] =~= old(out)@ + nat_digits(n as nat));
        }
    }
}

/// Appends the decimal text of `v`.
fn push_decimal(out: &mut String, v: i64)
    ensures
        final(out)@ == old(out)@ + decimal(v as int),
{
    if v < 0 {
        proof { reveal_strlit("-"); }
        out.append("-");
        let m: u64 = (0i128 - v as i128) as u64;
        push_digits(out, m);
        assert(old(out)@ + seq!['-'] + nat_digits(m as nat) =~= old(out)@ + decimal(v as int));
    } else {
        push_digits(out, v as u64);
    }
}

proof fn lemma_views_index(s: Seq<Box<SyntaxNode>>)
    ensures
        views(s).len() == s.len(),
        forall|i: int| 0 <= i < s.len() ==> #[trigger] views(s)[i] == s[i].view(),
    decreases s.len(),
{
    if s.len() > 0 {
        let rest = s.subrange(1, s.len() as int);
        lemma_views_index(rest);
        assert forall|i: int| 0 <= i < s.len() implies #[trigger] views(s)[i] == s[i].view() by {
            if i > 0 {
                assert(rest[i - 1] == s[i]);
            }
        }
    }
}

impl AssemblerTargetFile {
    /// The file name and the assembly text.
    pub closed spec fn view(&self) -> (Seq<char>, Seq<char>) {
        (self.filename@, self.content@)
    }

    pub fn filename(&self) -> (r: &str)
        ensures
            r@ == self.view().0,
    {
        self.filename.as_str()
    }

    pub fn content(&self) -> (r: &str)
        ensures
            r@ == self.view().1,
    {
        self.content.as_str()
    }

    /// Generates the assembly for a program, to be stored under `filename`.
    pub fn from_ast(filename: String, ast: SyntaxNode) -> (r: AssemblerTargetFile)
        requires
            ast is Program,
        ensures
            r.view() == (filename@, emit(ast.view())),
    {
        let content = AssemblerTargetFile::ast_to_assembler(&ast);
        AssemblerTargetFile { filename, content }
    }

    fn nodes_to_assembler(nodes: &Vec<Box<SyntaxNode>>, code: &mut String, Ghost(outer): Ghost<SyntaxNode>)
        requires
            decreases_to!(outer => nodes),
        ensures
            final(code)@ == old(code)@ + emit_all(views(nodes@)),
        decreases outer, 0int,
    {
        proof {
            lemma_views_index(nodes@);
        }
        let ghost start = code@;
        let mut i: usize = 0;
        while i < nodes.len()
            invariant
                i <= nodes@.len(),
                decreases_to!(outer => nodes),
                views(nodes@).len() == nodes@.len(),
                forall|j: int| 0 <= j < nodes@.len() ==> #[trigger] views(nodes@)[j] == nodes@[j].view(),
                code@ == start + emit_all(views(nodes@).subrange(0, i as int)),
            decreases nodes@.len() - i,
        {
            proof {
                assert(decreases_to!(nodes => nodes[i as int]));
            }
            let part = AssemblerTargetFile::ast_to_assembler(&nodes[i]);
            code.append(part.as_str());
            proof {
                let s = views(nodes@);
                assert(s.subrange(0, i + 1).subrange(0, i as int) =~= s.subrange(0, i as int));
                assert(s.subrange(0, i + 1)[i as int] == s[i as int]);
            }
            i += 1;
        }
        assert(views(nodes@).subrange(0, nodes@.len() as int) =~= views(nodes@));
    }

    fn ast_to_assembler(node: &SyntaxNode) -> (r: String)
        ensures
            r@ == emit(node.view()),
        decreases *node, 1int,
    {
        let mut code = String::new();
        match node {
            SyntaxNode::Program(nodes) => {
                AssemblerTargetFile::nodes_to_assembler(nodes, &mut code, Ghost(*node));
            },
            SyntaxNode::Block(nodes) => {
                AssemblerTargetFile::nodes_to_assembler(nodes, &mut code, Ghost(*node));
            },
            SyntaxNode::Function { name, body, .. } => {
                proof {
                    reveal_strlit(".globl ");
                    reveal_strlit("\n");
                    reveal_strlit(":\n");
                }
                code.append(".globl ");
                code.append(name.as_str());
                code.append("\n");
                code.append(name.as_str());
                code.append(":\n");
                let inner = AssemblerTargetFile::ast_to_assembler(body);
                code.append(inner.as_str());
                assert(code@ =~= emit(node.view()));
            },
            SyntaxNode::ReturnStatement(child) => {
                proof {
                    reveal_strlit("movl $");
                    reveal_strlit(", %eax\n");
                    reveal_strlit("ret\n");
                }
                assert(node.view() == Ast::ReturnStatement(Box::new(child.view())));
                if let SyntaxNode::Literals(Literal::Integer(value)) = &**child {
                    code.append("movl $");
                    push_decimal(&mut code, *value);
                    code.append(", %eax\n");
                    code.append("ret\n");
                    assert(code@ =~= emit(node.view()));
                } else {
                    assert(!(child.view() matches Ast::Literals(LiteralValue::Integer(_)))) by {
                        match &**child {
                            SyntaxNode::Literals(l) => {
                                assert(child.view() == Ast::Literals(l.view()));
                            },
                            _ => {},
                        }
                    }
                    code.append("ret\n");
                    assert(code@ =~= emit(node.view()));
                }
            },
            _ => {},
        }
        code
    }
}

/// A return whose child is a literal of any kind but integer emits the return
/// instruction alone, with no instruction that loads a value.
pub proof fn law_non_integer_return(lit: LiteralValue)
    requires
        !(lit is Integer),
    ensures
        emit(Ast::ReturnStatement(Box::new(Ast::Literals(lit)))) == ret_text(),
{
}

} // verus!
