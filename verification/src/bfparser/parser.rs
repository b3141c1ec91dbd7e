use crate::bftype::bferror::{CompileError, CompileErrorKind};
use vstd::prelude::*;

verus! {

/// One instruction of the source language; every other character of a source
/// text is a comment.
#[allow(non_camel_case_types)]
#[derive(Debug, Clone, Copy, PartialEq, Eq, Structural)]
pub enum TOKEN {
    /// `+`
    Increment,
    /// `-`
    Decrement,
    /// `<`
    MoveLeft,
    /// `>`
    MoveRight,
    /// `,`
    Input,
    /// `.`
    Output,
    /// `[`
    LeftLoop,
    /// `]`
    RightLoop,
}

/// The token a character stands for, if it stands for one.
pub open spec fn token_of(c: char) -> Option<TOKEN> {
    if c == '+' {
        Some(TOKEN::Increment)
    } else if c == '-' {
        Some(TOKEN::Decrement)
    } else if c == '<' {
        Some(TOKEN::MoveLeft)
    } else if c == '>' {
        Some(TOKEN::MoveRight)
    } else if c == ',' {
        Some(TOKEN::Input)
    } else if c == '.' {
        Some(TOKEN::Output)
    } else if c == '[' {
        Some(TOKEN::LeftLoop)
    } else if c == ']' {
        Some(TOKEN::RightLoop)
    } else {
        None
    }
}

/// The character a token is written as.
pub open spec fn char_of(t: TOKEN) -> char {
    match t {
        TOKEN::Increment => '+',
        TOKEN::Decrement => '-',
        TOKEN::MoveLeft => '<',
        TOKEN::MoveRight => '>',
        TOKEN::Input => ',',
        TOKEN::Output => '.',
        TOKEN::LeftLoop => '[',
        TOKEN::RightLoop => ']',
    }
}

/// The tokens of a text, in order, comments dropped.
pub open spec fn tokens_of(s: Seq<char>) -> Seq<TOKEN>
    decreases s.len(),
{
    if s.len() == 0 {
        Seq::empty()
    } else {
        match token_of(s.last()) {
            Some(t) => tokens_of(s.drop_last()).push(t),
            None => tokens_of(s.drop_last()),
        }
    }
}

/// The text that writes each token as its character.
pub open spec fn render(tokens: Seq<TOKEN>) -> Seq<char> {
    Seq::new(tokens.len(), |i: int| char_of(tokens[i]))
}

/// How often `c` occurs in `s`.
pub open spec fn count(s: Seq<char>, c: char) -> nat
    decreases s.len(),
{
    if s.len() == 0 {
        0
    } else {
        count(s.drop_last(), c) + if s.last() == c {
            1nat
        } else {
            0nat
        }
    }
}

/// How many `[` of `s` are still open at its end, if no `]` came too early.
pub open spec fn depth(s: Seq<char>) -> int {
    count(s, '[') - count(s, ']')
}

/// No prefix of `s` closes more brackets than it opened.
pub open spec fn no_early_close(s: Seq<char>) -> bool {
    forall|k: int| 0 <= k <= s.len() ==> depth(#[trigger] s.take(k)) >= 0
}

/// The brackets of `s` pair up: as many `[` as `]`, and in every prefix at
/// least as many `[` as `]`.
pub open spec fn balanced(s: Seq<char>) -> bool {
    count(s, '[') == count(s, ']') && no_early_close(s)
}

/// The line of the character at index `i`, counted from one.
pub open spec fn line_of(s: Seq<char>, i: int) -> int {
    1 + count(s.take(i), '\n') as int
}

/// How many characters follow the last newline of `s`.
pub open spec fn tail_width(s: Seq<char>) -> nat
    decreases s.len(),
{
    if s.len() == 0 || s.last() == '\n' {
        0
    } else {
        tail_width(s.drop_last()) + 1
    }
}

/// The column of the character at index `i`, counted from zero on each line.
pub open spec fn col_of(s: Seq<char>, i: int) -> int {
    tail_width(s.take(i)) as int
}

/// A position as an error reports it: exact up to `u32::MAX`, which stands
/// for everything beyond.
pub open spec fn reported(x: int) -> u32 {
    if x >= u32::MAX {
        u32::MAX
    } else {
        x as u32
    }
}

/// The character at `i` is the first `]` that has no `[` to close.
pub open spec fn first_stray_close(s: Seq<char>, i: int) -> bool {
    &&& 0 <= i < s.len()
    &&& s[i] == ']'
    &&& depth(s.take(i)) == 0
    &&& no_early_close(s.take(i))
}

/// The character at `i` is the last `[` that is never closed: it stays open
/// to the end, and behind it as many `[` as `]` follow.
pub open spec fn last_unclosed_open(s: Seq<char>, i: int) -> bool {
    &&& 0 <= i < s.len()
    &&& s[i] == '['
    &&& depth(s) == depth(s.take(i)) + 1
    &&& forall|k: int| i < k <= s.len() ==> depth(#[trigger] s.take(k)) > depth(s.take(i))
}

/// What the lexer reports of a text whose brackets do not pair up: the
/// position of the first `]` that closes nothing, or, where there is none,
/// of the last `[` that is never closed.
pub open spec fn lex_fault(s: Seq<char>, e: CompileError) -> bool {
    match e.kind {
        CompileErrorKind::UnexpectedRightBracket => exists|i: int|
            {
                &&& #[trigger] first_stray_close(s, i)
                &&& e.line == reported(line_of(s, i))
                &&& e.col == reported(col_of(s, i))
            },
        CompileErrorKind::UnclosedLeftBracket => no_early_close(s) && exists|i: int|
            {
                &&& #[trigger] last_unclosed_open(s, i)
                &&& e.line == reported(line_of(s, i))
                &&& e.col == reported(col_of(s, i))
            },
    }
}

/// What the lexer makes of a text: its tokens, where the brackets pair up.
pub open spec fn lex(s: Seq<char>) -> Option<Seq<TOKEN>> {
    if balanced(s) {
        Some(tokens_of(s))
    } else {
        None
    }
}


/// Extending a text by one character extends its tokens, its counts and its
/// last line by what that character is.
proof fn lemma_take_step(s: Seq<char>, i: int)
    requires
        0 <= i < s.len(),
    ensures
        s.take(i + 1).drop_last() == s.take(i),
        s.take(i + 1).last() == s[i],
{
    assert(s.take(i + 1).drop_last() =~= s.take(i));
}

/// Reads a source text into tokens.
///
/// Succeeds exactly on the texts whose brackets pair up, with the tokens in
/// source order. Otherwise the error names the first `]` that closes nothing,
/// or, where there is none, the last `[` that is never closed.
pub fn parse(str: &str) -> (r: Result<Vec<TOKEN>, CompileError>)
    ensures
        r is Ok <==> balanced(str@),
        match r {
            Ok(tokens) => Some(tokens@) == lex(str@),
            Err(e) => lex_fault(str@, e),
        },
{
    let mut tokens: Vec<TOKEN> = Vec::new();
    let mut stack: Vec<(u32, u32)> = Vec::new();
    let ghost mut open_at: Seq<int> = Seq::empty();
    let mut line: u32 = 1;
    let mut col: u32 = 0;
    for c in it: str.chars()
        invariant
            it.seq() == str@,
            tokens@ == tokens_of(str@.take(it.index() as int)),
            no_early_close(str@.take(it.index() as int)),
            line == reported(line_of(str@, it.index() as int)),
            col == reported(col_of(str@, it.index() as int)),
            stack.len() == open_at.len(),
            open_at.len() == depth(str@.take(it.index() as int)),
            forall|k: int|
                0 <= k < open_at.len() ==> {
                    &&& 0 <= #[trigger] open_at[k] < it.index()
                    &&& str@[open_at[k]] == '['
                    &&& depth(str@.take(open_at[k])) == k
                    &&& stack[k].0 == reported(line_of(str@, open_at[k]))
                    &&& stack[k].1 == reported(col_of(str@, open_at[k]))
                    &&& forall|j: int|
                        open_at[k] < j <= it.index() ==> depth(#[trigger] str@.take(j)) > k
                },
    {
        let ghost i = it.index() as int;
        proof {
            lemma_take_step(str@, i);
            assert(str@[i] == c);
        }
        match c {
            '+' => tokens.push(TOKEN::Increment),
            '-' => tokens.push(TOKEN::Decrement),
            '<' => tokens.push(TOKEN::MoveLeft),
            '>' => tokens.push(TOKEN::MoveRight),
            ',' => tokens.push(TOKEN::Input),
            '.' => tokens.push(TOKEN::Output),
            '[' => {
                stack.push((line, col));
                proof {
                    open_at = open_at.push(i);
                }
                tokens.push(TOKEN::LeftLoop);
            },
            ']' => {
                if stack.len() == 0 {
                    proof {
                        assert(first_stray_close(str@, i));
                        assert(depth(str@.take(i + 1)) < 0);
                    }
                    return Err(
                        CompileError { line, col, kind: CompileErrorKind::UnexpectedRightBracket },
                    );
                }
                stack.pop();
                proof {
                    open_at = open_at.drop_last();
                }
                tokens.push(TOKEN::RightLoop);
            },
            _ => {},
        }
        if c == '\n' {
            if line < u32::MAX {
                line += 1;
            }
            col = 0;
        } else if col < u32::MAX {
            col += 1;
        }
        proof {
            assert forall|k: int| 0 <= k <= i + 1 implies depth(#[trigger] str@.take(i + 1).take(k))
                >= 0 by {
                assert(str@.take(i + 1).take(k) == str@.take(k));
                if k <= i {
                    assert(str@.take(i).take(k) == str@.take(k));
                }
            }
        }
    }
    proof {
        assert(str@.take(str@.len() as int) == str@);
        assert forall|k: int| 0 <= k <= str@.len() implies depth(#[trigger] str@.take(k)) >= 0 by {
            assert(str@.take(str@.len() as int).take(k) == str@.take(k));
        }
    }
    if stack.len() > 0 {
        let (line, col) = stack[stack.len() - 1];
        proof {
            assert(last_unclosed_open(str@, open_at.last()));
        }
        return Err(CompileError { line, col, kind: CompileErrorKind::UnclosedLeftBracket });
    }
    Ok(tokens)
}


/// Writes tokens as source text, one character each.
pub fn lex_to_string(tokens: &Vec<TOKEN>) -> (r: String)
    ensures
        r@ == render(tokens@),
{
    let mut text = String::new();
    let mut i: usize = 0;
    while i < tokens.len()
        invariant
            i <= tokens.len(),
            text@ == render(tokens@.take(i as int)),
        decreases tokens.len() - i,
    {
        proof {
            reveal_strlit("+");
            reveal_strlit("-");
            reveal_strlit("<");
            reveal_strlit(">");
            reveal_strlit(",");
            reveal_strlit(".");
            reveal_strlit("[");
            reveal_strlit("]");
        }
        let piece = match tokens[i] {
            TOKEN::Increment => "+",
            TOKEN::Decrement => "-",
            TOKEN::MoveLeft => "<",
            TOKEN::MoveRight => ">",
            TOKEN::Input => ",",
            TOKEN::Output => ".",
            TOKEN::LeftLoop => "[",
            TOKEN::RightLoop => "]",
        };
        text.append(piece);
        proof {
            assert(piece@ =~= seq![char_of(tokens@[i as int])]);
            assert(render(tokens@.take(i + 1)) =~= render(tokens@.take(i as int)) + piece@);
        }
        i += 1;
    }
    proof {
        assert(tokens@.take(tokens.len() as int) =~= tokens@);
    }
    text
}

/// Rendering tokens and reading the text again gives the tokens back.
pub proof fn lemma_tokens_of_render(tokens: Seq<TOKEN>)
    ensures
        tokens_of(render(tokens)) == tokens,
    decreases tokens.len(),
{
    if tokens.len() > 0 {
        lemma_tokens_of_render(tokens.drop_last());
        assert(render(tokens).drop_last() =~= render(tokens.drop_last()));
        assert(tokens.drop_last().push(tokens.last()) =~= tokens);
    } else {
        assert(render(tokens) =~= Seq::<char>::empty());
    }
}

/// Dropping comments keeps the brackets: a text and the rendering of its
/// tokens hold as many `[` and as many `]`.
pub proof fn lemma_render_keeps_brackets(s: Seq<char>)
    ensures
        count(render(tokens_of(s)), '[') == count(s, '['),
        count(render(tokens_of(s)), ']') == count(s, ']'),
    decreases s.len(),
{
    if s.len() > 0 {
        lemma_render_keeps_brackets(s.drop_last());
        let before = tokens_of(s.drop_last());
        match token_of(s.last()) {
            Some(t) => {
                assert(render(before.push(t)).drop_last() =~= render(before));
                assert(render(before.push(t)).last() == s.last());
            },
            None => {},
        }
    } else {
        assert(render(tokens_of(s)) =~= Seq::<char>::empty());
    }
}

/// Every prefix of a text's tokens is the tokens of a prefix of the text.
pub proof fn lemma_token_prefix(s: Seq<char>, k: int) -> (m: int)
    requires
        0 <= k <= tokens_of(s).len(),
    ensures
        0 <= m <= s.len(),
        tokens_of(s.take(m)) == tokens_of(s).take(k),
    decreases s.len(),
{
    if k == tokens_of(s).len() {
        assert(s.take(s.len() as int) =~= s);
        assert(tokens_of(s).take(k) =~= tokens_of(s));
        s.len() as int
    } else {
        let before = tokens_of(s.drop_last());
        let m = lemma_token_prefix(s.drop_last(), k);
        assert(s.drop_last().take(m) =~= s.take(m));
        assert(before.take(k) =~= tokens_of(s).take(k));
        m
    }
}

/// Reading a text, writing its tokens down and reading them again gives the
/// same tokens: only the comments are lost.
pub proof fn lemma_lex_idempotent(s: Seq<char>)
    requires
        lex(s) is Some,
    ensures
        lex(render(lex(s)->0)) == lex(s),
{
    let t = tokens_of(s);
    let r = render(t);
    lemma_tokens_of_render(t);
    lemma_render_keeps_brackets(s);
    assert forall|k: int| 0 <= k <= r.len() implies depth(#[trigger] r.take(k)) >= 0 by {
        let m = lemma_token_prefix(s, k);
        assert(r.take(k) =~= render(t.take(k)));
        lemma_render_keeps_brackets(s.take(m));
        assert(depth(s.take(m)) >= 0);
    }
}

} // verus!
