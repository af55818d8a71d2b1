use vstd::prelude::*;
use crate::lexer::{
    at2, in_class, is_space_char, lemma_run_end_bounds, lexes, run_end, step_ok, token_at, token_end,
    CharClass, Token,
};
use crate::parser::{
    block_at, is_function_header, is_skipped, item_at, node_at, nodes_from, parse_program, Ast,
    ParseError,
};

verus! {

/// `s[i..]` is made of whitespace and line comments alone.
pub open spec fn is_trivia_text(s: Seq<char>, i: int) -> bool
    decreases s.len() - i,
{
    if !(0 <= i < s.len()) {
        true
    } else if is_space_char(s[i]) {
        is_trivia_text(s, i + 1)
    } else if at2(s, i, '/', '/') {
        let e = run_end(s, i + 2, CharClass::NotNewline);
        i < e <= s.len() && is_trivia_text(s, e)
    } else {
        false
    }
}

proof fn lemma_trivia_space_run(s: Seq<char>, i: int, j: int)
    requires
        0 <= i <= j <= s.len(),
        forall|k: int| i <= k < j ==> is_space_char(#[trigger] s[k]),
        is_trivia_text(s, i),
    ensures
        is_trivia_text(s, j),
    decreases j - i,
{
    if i < j {
        lemma_trivia_space_run(s, i + 1, j);
    }
}

proof fn lemma_trivia_step(s: Seq<char>, i: int, t: Token)
    requires
        0 <= i < s.len(),
        is_trivia_text(s, i),
    ensures
        step_ok(s, i),
        is_trivia_text(s, token_end(s, i)),
        token_at(s, i, t) ==> (t is Whitespace || t is Comment),
{
    if is_space_char(s[i]) {
        lemma_run_end_bounds(s, i, CharClass::Space);
        assert forall|k: int| i <= k < run_end(s, i, CharClass::Space) implies is_space_char(
            #[trigger] s[k],
        ) by {
            assert(in_class(CharClass::Space, s[k]));
        }
        lemma_trivia_space_run(s, i, run_end(s, i, CharClass::Space));
    }
}

proof fn lemma_trivia_lexes(s: Seq<char>, i: int, k: int, v: Seq<Token>)
    requires
        0 <= i,
        is_trivia_text(s, i),
        lexes(s, i, k, v),
    ensures
        is_trivia_text(s, k),
        forall|j: int| 0 <= j < v.len() ==> (#[trigger] v[j] is Whitespace || v[j] is Comment),
    decreases v.len(),
{
    if v.len() > 0 {
        if i >= s.len() {
            assert(token_end(s, i) == i);
        }
        lemma_trivia_step(s, i, v[0]);
        let rest = v.drop_first();
        lemma_trivia_lexes(s, token_end(s, i), k, rest);
        assert forall|j: int| 0 <= j < v.len() implies (#[trigger] v[j] is Whitespace
            || v[j] is Comment) by {
            if j > 0 {
                assert(v[j] == rest[j - 1]);
            }
        }
    }
}

proof fn lemma_skipped_only(v: Seq<Token>, p: int)
    requires
        0 <= p,
        forall|j: int| 0 <= j < v.len() ==> is_skipped(#[trigger] v[j]),
    ensures
        nodes_from(v, p) == Ok::<Seq<Ast>, ParseError>(Seq::empty()),
    decreases v.len() - p,
{
    if p < v.len() {
        lemma_skipped_only(v, p + 1);
    }
}

/// Text made only of whitespace and line comments never stops the tokenizer,
/// gives whitespace and comment tokens alone, and those parse to a program
/// with no nodes.
pub proof fn law_trivia_only(s: Seq<char>, k: int, v: Seq<Token>)
    requires
        is_trivia_text(s, 0),
        lexes(s, 0, k, v),
    ensures
        0 <= k < s.len() ==> step_ok(s, k),
        forall|j: int| 0 <= j < v.len() ==> (#[trigger] v[j] is Whitespace || v[j] is Comment),
        parse_program(v) == Ok::<Ast, ParseError>(Ast::Program(Seq::empty())),
{
    lemma_trivia_lexes(s, 0, k, v);
    if 0 <= k < s.len() {
        lemma_trivia_step(s, k, Token::Whitespace);
    }
    assert forall|j: int| 0 <= j < v.len() implies is_skipped(#[trigger] v[j]) by {
        assert(v[j] is Whitespace || v[j] is Comment);
    }
    lemma_skipped_only(v, 0);
}

pub open spec fn is_trivia_token(t: Token) -> bool {
    t is Whitespace || t is Comment
}

/// `v` with its whitespace and comment tokens taken out.
pub open spec fn drop_trivia(v: Seq<Token>) -> Seq<Token>
    decreases v.len(),
{
    if v.len() == 0 {
        Seq::empty()
    } else if is_trivia_token(v[0]) {
        drop_trivia(v.drop_first())
    } else {
        seq![v[0]] + drop_trivia(v.drop_first())
    }
}

/// No identifier token is directly followed by a whitespace token.
pub open spec fn no_spaced_identifier(v: Seq<Token>) -> bool {
    forall|j: int| 0 <= j < v.len() - 1 ==> !(#[trigger] v[j] is Identifier && v[j + 1] is Whitespace)
}

spec fn corr(v: Seq<Token>, p: int, f: Seq<Token>, q: int) -> bool {
    0 <= p <= v.len() && 0 <= q <= f.len() && drop_trivia(v.skip(p)) == f.skip(q)
}

spec fn same_item(v: Seq<Token>, f: Seq<Token>, r1: Result<(Ast, int), ParseError>, r2: Result<(Ast, int), ParseError>) -> bool {
    match r1 {
        Ok((n1, e1)) => match r2 {
            Ok((n2, e2)) => n1 == n2 && corr(v, e1, f, e2),
            Err(_) => false,
        },
        Err(_) => r2 is Err,
    }
}

spec fn same_block(v: Seq<Token>, f: Seq<Token>, r1: Result<(Seq<Ast>, int), ParseError>, r2: Result<(Seq<Ast>, int), ParseError>) -> bool {
    match r1 {
        Ok((n1, e1)) => match r2 {
            Ok((n2, e2)) => n1 == n2 && corr(v, e1, f, e2),
            Err(_) => false,
        },
        Err(_) => r2 is Err,
    }
}

proof fn lemma_drop_trivia_clean(w: Seq<Token>)
    ensures
        forall|j: int| 0 <= j < drop_trivia(w).len() ==> !is_trivia_token(#[trigger] drop_trivia(w)[j]),
    decreases w.len(),
{
    if w.len() > 0 {
        lemma_drop_trivia_clean(w.drop_first());
        let d = drop_trivia(w.drop_first());
        if !is_trivia_token(w[0]) {
            assert(drop_trivia(w) == seq![w[0]] + d);
            assert forall|j: int| 0 <= j < drop_trivia(w).len() implies !is_trivia_token(
                #[trigger] drop_trivia(w)[j],
            ) by {
                if j > 0 {
                    assert(drop_trivia(w)[j] == d[j - 1]);
                } else {
                    assert(drop_trivia(w)[0] == w[0]);
                }
            }
        } else {
            assert(drop_trivia(w) == d);
        }
    }
}

proof fn lemma_corr_step(v: Seq<Token>, p: int, f: Seq<Token>, q: int)
    requires
        corr(v, p, f, q),
    ensures
        p == v.len() ==> q == f.len(),
        p < v.len() && is_trivia_token(v[p]) ==> corr(v, p + 1, f, q),
        p < v.len() && !is_trivia_token(v[p]) ==> q < f.len() && f[q] == v[p] && corr(v, p + 1, f, q + 1),
{
    if p == v.len() {
        assert(v.skip(p) =~= Seq::<Token>::empty());
    } else {
        assert(v.skip(p).drop_first() =~= v.skip(p + 1));
        assert(v.skip(p)[0] == v[p]);
        if !is_trivia_token(v[p]) {
            assert(f.skip(q).len() > 0);
            assert(f.skip(q)[0] == f[q]);
            assert(f.skip(q + 1) =~= f.skip(q).drop_first());
            assert((seq![v[p]] + drop_trivia(v.skip(p + 1))).drop_first() =~= drop_trivia(v.skip(p + 1)));
        }
    }
}

proof fn lemma_item_progress(v: Seq<Token>, p: int)
    ensures
        item_at(v, p) matches Ok((_, e)) ==> p < e <= v.len(),
    decreases v.len() - p, 1int,
{
    if 0 <= p < v.len() {
        if is_skipped(v[p]) {
            lemma_item_progress(v, p + 1);
        } else {
            lemma_node_progress(v, p);
        }
    }
}

proof fn lemma_node_progress(v: Seq<Token>, p: int)
    ensures
        node_at(v, p) matches Ok((_, e)) ==> p < e <= v.len(),
    decreases v.len() - p, 0int,
{
    if 0 <= p < v.len() {
        if is_function_header(v, p) {
            lemma_item_progress(v, p + 5);
        } else if v[p] is OpenBrace {
            lemma_block_progress(v, p + 1);
        } else {
            lemma_item_progress(v, p + 1);
        }
    }
}

proof fn lemma_block_progress(v: Seq<Token>, p: int)
    ensures
        block_at(v, p) matches Ok((_, e)) ==> p < e <= v.len(),
    decreases v.len() - p, 1int,
{
    if 0 <= p < v.len() {
        if is_skipped(v[p]) {
            lemma_block_progress(v, p + 1);
        } else if !(v[p] is CloseBrace) {
            if let Ok((_, e)) = node_at(v, p) {
                if p < e <= v.len() {
                    lemma_block_progress(v, e);
                }
            }
        }
    }
}

proof fn lemma_same_item(v: Seq<Token>, p: int, f: Seq<Token>, q: int)
    requires
        no_spaced_identifier(v),
        f == drop_trivia(v),
        corr(v, p, f, q),
    ensures
        same_item(v, f, item_at(v, p), item_at(f, q)),
    decreases v.len() - p, 1int,
{
    lemma_corr_step(v, p, f, q);
    if p < v.len() {
        if is_trivia_token(v[p]) {
            lemma_same_item(v, p + 1, f, q);
        } else if v[p] is Semicolon {
            lemma_same_item(v, p + 1, f, q + 1);
        } else {
            lemma_same_node(v, p, f, q);
        }
    }
}

proof fn lemma_same_node(v: Seq<Token>, p: int, f: Seq<Token>, q: int)
    requires
        no_spaced_identifier(v),
        f == drop_trivia(v),
        corr(v, p, f, q),
        p < v.len(),
        !is_skipped(v[p]),
    ensures
        same_item(v, f, node_at(v, p), node_at(f, q)),
    decreases v.len() - p, 0int,
{
    lemma_corr_step(v, p, f, q);
    lemma_drop_trivia_clean(v);
    assert(!is_function_header(v, p)) by {
        if p + 5 <= v.len() && v[p] is Identifier {
            assert(!(v[p] is Identifier && v[p + 1] is Whitespace));
        }
    }
    assert(!is_function_header(f, q)) by {
        if q + 5 <= f.len() {
            assert(!is_trivia_token(f[q + 1]));
        }
    }
    if v[p] is OpenBrace {
        lemma_same_block(v, p + 1, f, q + 1);
    } else if v[p] == Token::Keyword(crate::lexer::Keyword::Return) {
        lemma_same_item(v, p + 1, f, q + 1);
    }
}

proof fn lemma_same_block(v: Seq<Token>, p: int, f: Seq<Token>, q: int)
    requires
        no_spaced_identifier(v),
        f == drop_trivia(v),
        corr(v, p, f, q),
    ensures
        same_block(v, f, block_at(v, p), block_at(f, q)),
    decreases v.len() - p, 1int,
{
    lemma_corr_step(v, p, f, q);
    if p < v.len() {
        if is_trivia_token(v[p]) {
            lemma_same_block(v, p + 1, f, q);
        } else if v[p] is Semicolon {
            lemma_same_block(v, p + 1, f, q + 1);
        } else if !(v[p] is CloseBrace) {
            lemma_same_node(v, p, f, q);
            lemma_node_progress(v, p);
            lemma_node_progress(f, q);
            if let Ok((_, e1)) = node_at(v, p) {
                if let Ok((_, e2)) = node_at(f, q) {
                    lemma_same_block(v, e1, f, e2);
                }
            }
        }
    }
}

proof fn lemma_same_nodes(v: Seq<Token>, p: int, f: Seq<Token>, q: int)
    requires
        no_spaced_identifier(v),
        f == drop_trivia(v),
        corr(v, p, f, q),
    ensures
        match nodes_from(v, p) {
            Ok(s) => nodes_from(f, q) == Ok::<Seq<Ast>, ParseError>(s),
            Err(_) => nodes_from(f, q) is Err,
        },
    decreases v.len() - p,
{
    lemma_corr_step(v, p, f, q);
    if p < v.len() {
        if is_trivia_token(v[p]) {
            lemma_same_nodes(v, p + 1, f, q);
        } else if v[p] is Semicolon {
            lemma_same_nodes(v, p + 1, f, q + 1);
        } else {
            lemma_same_node(v, p, f, q);
            lemma_node_progress(v, p);
            lemma_node_progress(f, q);
            if let Ok((_, e1)) = node_at(v, p) {
                if let Ok((_, e2)) = node_at(f, q) {
                    lemma_same_nodes(v, e1, f, e2);
                }
            }
        }
    }
}

/// Taking the whitespace and comment tokens out before parsing changes
/// nothing: the parse succeeds on one sequence exactly when it succeeds on the
/// other, and gives the same tree. This holds where no identifier is directly
/// followed by whitespace, since a function header needs that whitespace token.
pub proof fn law_filter_trivia_first(v: Seq<Token>)
    requires
        no_spaced_identifier(v),
    ensures
        parse_program(v) is Ok <==> parse_program(drop_trivia(v)) is Ok,
        parse_program(v) is Ok ==> parse_program(v) == parse_program(drop_trivia(v)),
{
    let f = drop_trivia(v);
    assert(v.skip(0) =~= v);
    assert(f.skip(0) =~= f);
    lemma_same_nodes(v, 0, f, 0);
}

/// Number of `{` minus number of `}` among `v[p..e]`.
pub open spec fn brace_balance(v: Seq<Token>, p: int, e: int) -> int
    decreases e - p,
{
    if e <= p {
        0
    } else {
        brace_balance(v, p, e - 1) + brace_weight(v[e - 1])
    }
}

pub open spec fn brace_weight(t: Token) -> int {
    if t is OpenBrace {
        1
    } else if t is CloseBrace {
        -1
    } else {
        0
    }
}

proof fn lemma_balance_first(v: Seq<Token>, p: int)
    ensures
        brace_balance(v, p, p + 1) == brace_weight(v[p]),
{
    assert(brace_balance(v, p, p) == 0);
}

proof fn lemma_balance_split(v: Seq<Token>, p: int, m: int, e: int)
    requires
        p <= m <= e,
    ensures
        brace_balance(v, p, e) == brace_balance(v, p, m) + brace_balance(v, m, e),
    decreases e - m,
{
    if m < e {
        lemma_balance_split(v, p, m, e - 1);
    }
}

proof fn lemma_item_balanced(v: Seq<Token>, p: int)
    ensures
        item_at(v, p) matches Ok((_, e)) ==> p <= e && brace_balance(v, p, e) == 0,
    decreases v.len() - p, 1int,
{
    if 0 <= p < v.len() {
        if is_skipped(v[p]) {
            lemma_item_balanced(v, p + 1);
            lemma_balance_first(v, p);
            if let Ok((_, e)) = item_at(v, p + 1) {
                lemma_balance_split(v, p, p + 1, e);
            }
        } else {
            lemma_node_balanced(v, p);
        }
    }
}

proof fn lemma_node_balanced(v: Seq<Token>, p: int)
    ensures
        node_at(v, p) matches Ok((_, e)) ==> p <= e && brace_balance(v, p, e) == 0,
    decreases v.len() - p, 0int,
{
    if 0 <= p < v.len() {
        if is_function_header(v, p) {
            lemma_item_balanced(v, p + 5);
            if let Ok((_, e)) = item_at(v, p + 5) {
                lemma_balance_split(v, p, p + 5, e);
                assert(brace_balance(v, p, p + 5) == 0) by {
                    assert(brace_balance(v, p, p) == 0);
                    assert(brace_balance(v, p, p + 1) == 0);
                    assert(brace_balance(v, p, p + 2) == 0);
                    assert(brace_balance(v, p, p + 3) == 0);
                    assert(brace_balance(v, p, p + 4) == 0);
                }
            }
        } else if v[p] is OpenBrace {
            lemma_balance_first(v, p);
            lemma_block_balanced(v, p + 1);
            if let Ok((_, e)) = block_at(v, p + 1) {
                lemma_balance_split(v, p, p + 1, e);
            }
        } else if v[p] == Token::Keyword(crate::lexer::Keyword::Return) {
            lemma_balance_first(v, p);
            lemma_item_balanced(v, p + 1);
            if let Ok((_, e)) = item_at(v, p + 1) {
                lemma_balance_split(v, p, p + 1, e);
            }
        } else {
            lemma_balance_first(v, p);
        }
    }
}

proof fn lemma_block_balanced(v: Seq<Token>, p: int)
    ensures
        block_at(v, p) matches Ok((_, e)) ==> p <= e && brace_balance(v, p, e) == -1,
    decreases v.len() - p, 1int,
{
    if 0 <= p < v.len() {
        lemma_balance_first(v, p);
        if is_skipped(v[p]) {
            lemma_block_balanced(v, p + 1);
            if let Ok((_, e)) = block_at(v, p + 1) {
                lemma_balance_split(v, p, p + 1, e);
            }
        } else if !(v[p] is CloseBrace) {
            lemma_node_balanced(v, p);
            if let Ok((_, e)) = node_at(v, p) {
                if p < e <= v.len() {
                    lemma_block_balanced(v, e);
                    if let Ok((_, f)) = block_at(v, e) {
                        lemma_balance_split(v, p, e, f);
                    }
                }
            }
        }
    }
}

proof fn lemma_nodes_balanced(v: Seq<Token>, p: int)
    requires
        0 <= p <= v.len(),
    ensures
        nodes_from(v, p) is Ok ==> brace_balance(v, p, v.len() as int) == 0,
    decreases v.len() - p,
{
    if p < v.len() {
        lemma_balance_first(v, p);
        if is_skipped(v[p]) {
            lemma_nodes_balanced(v, p + 1);
            lemma_balance_split(v, p, p + 1, v.len() as int);
        } else {
            lemma_node_balanced(v, p);
            if let Ok((_, e)) = node_at(v, p) {
                if p < e <= v.len() {
                    lemma_nodes_balanced(v, e);
                    lemma_balance_split(v, p, e, v.len() as int);
                }
            }
        }
    }
}

/// Tokens whose opening and closing braces do not pair up, such as a `{`
/// that is never closed, never parse to a program.
pub proof fn law_unbalanced_braces_fail(v: Seq<Token>)
    requires
        brace_balance(v, 0, v.len() as int) != 0,
    ensures
        parse_program(v) is Err,
{
    lemma_nodes_balanced(v, 0);
}

} // verus!
