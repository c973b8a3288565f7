//! Parsing of source text into a nested instruction tree.
//!
//! The language has eight command characters: `>` `<` `+` `-` `,` `.` `[` `]`.
//! Every other character is insignificant and skipped. `[` opens a loop whose
//! body runs up to the matching `]`; bracket mismatches are the only parse
//! errors.

use vstd::prelude::*;

verus! {

broadcast use
    vstd::seq::axiom_seq_index_decreases,
    vstd::seq::axiom_seq_subrange_decreases,
    vstd::std_specs::vec::axiom_vec_index_decreases,
    vstd::std_specs::vec::axiom_vec_decreases_to_view;

/// One node of the instruction tree. `Loop` owns its body exclusively;
/// instructions form a tree with no sharing.
#[derive(Debug, PartialEq, Eq)]
pub enum Token {
    Next,
    Previous,
    Incr,
    Decr,
    Input,
    Output,
    Loop(Vec<Token>),
}

/// The mathematical model of an instruction: the same tree shape with
/// loop bodies as sequences. Contracts speak of this type.
pub enum Instr {
    Next,
    Previous,
    Incr,
    Decr,
    Input,
    Output,
    Loop(Seq<Instr>),
}

/// Model of a single token.
pub open spec fn token_view(t: Token) -> Instr
    decreases t,
{
    match t {
        Token::Next => Instr::Next,
        Token::Previous => Instr::Previous,
        Token::Incr => Instr::Incr,
        Token::Decr => Instr::Decr,
        Token::Input => Instr::Input,
        Token::Output => Instr::Output,
        Token::Loop(body) => Instr::Loop(tokens_view(body@)),
    }
}

/// Model of a token sequence, element by element.
pub open spec fn tokens_view(ts: Seq<Token>) -> Seq<Instr>
    decreases ts,
{
    if ts.len() == 0 {
        Seq::empty()
    } else {
        tokens_view(ts.drop_last()).push(token_view(ts.last()))
    }
}

/// The model of a token sequence has one instruction per token.
pub proof fn lemma_tokens_view_len(ts: Seq<Token>)
    ensures
        tokens_view(ts).len() == ts.len(),
    decreases ts.len(),
{
    if ts.len() > 0 {
        lemma_tokens_view_len(ts.drop_last());
    }
}

/// The model of a token sequence is the model of each token in place.
pub proof fn lemma_tokens_view_index(ts: Seq<Token>, i: int)
    requires
        0 <= i < ts.len(),
    ensures
        tokens_view(ts).len() == ts.len(),
        tokens_view(ts)[i] == ts[i]@,
    decreases ts.len(),
{
    lemma_tokens_view_len(ts);
    if i < ts.len() - 1 {
        lemma_tokens_view_index(ts.drop_last(), i);
        assert(ts.drop_last()[i] == ts[i]);
    }
}

impl View for Token {
    type V = Instr;

    open spec fn view(&self) -> Instr {
        token_view(*self)
    }
}

/// The parsed program: the root sequence of instructions.
#[derive(Debug, PartialEq, Eq)]
pub struct Ast {
    pub root: Vec<Token>,
}

impl View for Ast {
    type V = Seq<Instr>;

    open spec fn view(&self) -> Seq<Instr> {
        tokens_view(self.root@)
    }
}

/// Why parsing failed. Each variant carries the character position (counted
/// in characters of the source) of the offending bracket.
#[derive(Debug, Clone, Copy, PartialEq, Eq, Structural)]
pub enum ParseError {
    /// A `[` at the given position was never closed.
    UnterminatedLoop(usize),
    /// A `]` at the given position has no matching open bracket.
    UnmatchedCloseBracket(usize),
}

/// True of the eight command characters; everything else is skipped.
pub open spec fn is_command(c: char) -> bool {
    c == '>' || c == '<' || c == '+' || c == '-' || c == ',' || c == '.' || c == '[' || c == ']'
}

/// The command characters of a source text, in order, junk removed.
pub open spec fn command_chars(s: Seq<char>) -> Seq<char>
    decreases s.len(),
{
    if s.len() == 0 {
        Seq::empty()
    } else if is_command(s.last()) {
        command_chars(s.drop_last()).push(s.last())
    } else {
        command_chars(s.drop_last())
    }
}

/// How one character changes the bracket nesting depth.
pub open spec fn bracket_delta(c: char) -> int {
    if c == '[' {
        1
    } else if c == ']' {
        -1
    } else {
        0
    }
}

/// Net bracket depth of the first `i` characters of `s`.
pub open spec fn depth_at(s: Seq<char>, i: int) -> int
    decreases i,
{
    if i <= 0 {
        0
    } else {
        depth_at(s, i - 1) + bracket_delta(s[i - 1])
    }
}

/// No prefix closes more brackets than it opens.
pub open spec fn no_close_overrun(s: Seq<char>) -> bool {
    forall|i: int| 0 <= i <= s.len() ==> depth_at(s, i) >= 0
}

/// Brackets nest properly and all of them are matched.
pub open spec fn well_bracketed(s: Seq<char>) -> bool {
    no_close_overrun(s) && depth_at(s, s.len() as int) == 0
}

/// The command characters that one instruction prints back to.
pub open spec fn render_instr(ins: Instr) -> Seq<char>
    decreases ins,
{
    match ins {
        Instr::Next => seq!['>'],
        Instr::Previous => seq!['<'],
        Instr::Incr => seq!['+'],
        Instr::Decr => seq!['-'],
        Instr::Input => seq![','],
        Instr::Output => seq!['.'],
        Instr::Loop(body) => seq!['['] + render_prog(body) + seq![']'],
    }
}

/// The command characters that a whole program prints back to.
pub open spec fn render_prog(p: Seq<Instr>) -> Seq<char>
    decreases p,
{
    if p.len() == 0 {
        Seq::empty()
    } else {
        render_prog(p.drop_last()) + render_instr(p.last())
    }
}

/// The command characters printed by a stack of partially parsed bodies:
/// the root body, then each still-open loop body behind its `[`.
pub open spec fn render_stack(bs: Seq<Seq<Instr>>) -> Seq<char>
    decreases bs.len(),
{
    if bs.len() == 0 {
        Seq::empty()
    } else if bs.len() == 1 {
        render_prog(bs[0])
    } else {
        render_stack(bs.drop_last()) + seq!['['] + render_prog(bs.last())
    }
}

/// The models of a stack of token bodies.
pub open spec fn bodies_views(bs: Seq<Vec<Token>>) -> Seq<Seq<Instr>> {
    Seq::new(bs.len(), |i: int| tokens_view(bs[i]@))
}

proof fn lemma_tokens_view_push(ts: Seq<Token>, t: Token)
    ensures
        tokens_view(ts.push(t)) == tokens_view(ts).push(token_view(t)),
{
    assert(ts.push(t).drop_last() =~= ts);
    assert(ts.push(t).last() == t);
}

proof fn lemma_render_prog_push(p: Seq<Instr>, x: Instr)
    ensures
        render_prog(p.push(x)) == render_prog(p) + render_instr(x),
{
    assert(p.push(x).drop_last() =~= p);
    assert(p.push(x).last() == x);
}

/// Appending an instruction to the innermost open body appends exactly its
/// rendering to the stack's rendering.
proof fn lemma_render_stack_push_last(bs: Seq<Seq<Instr>>, x: Instr)
    requires
        bs.len() >= 1,
    ensures
        render_stack(bs.update(bs.len() - 1, bs.last().push(x))) == render_stack(bs)
            + render_instr(x),
{
    let bs2 = bs.update(bs.len() - 1, bs.last().push(x));
    assert(bs2.last() == bs.last().push(x));
    lemma_render_prog_push(bs.last(), x);
    if bs.len() == 1 {
        assert(render_stack(bs2) == render_prog(bs2[0]));
    } else {
        assert(bs2.drop_last() =~= bs.drop_last());
    }
}

/// One parsing step extends the command characters of the consumed prefix by
/// the character just read, when it is a command, and by nothing otherwise.
proof fn lemma_command_chars_step(s: Seq<char>, i: int)
    requires
        0 <= i < s.len(),
    ensures
        command_chars(s.take(i + 1)) == if is_command(s[i]) {
            command_chars(s.take(i)).push(s[i])
        } else {
            command_chars(s.take(i))
        },
{
    assert(s.take(i + 1).drop_last() =~= s.take(i));
    assert(s.take(i + 1).last() == s[i]);
}

proof fn lemma_depth_prefix(a: Seq<char>, b: Seq<char>, i: int)
    requires
        0 <= i <= a.len(),
    ensures
        depth_at(a + b, i) == depth_at(a, i),
    decreases i,
{
    if i > 0 {
        lemma_depth_prefix(a, b, i - 1);
        assert((a + b)[i - 1] == a[i - 1]);
    }
}

proof fn lemma_depth_concat(a: Seq<char>, b: Seq<char>, k: int)
    requires
        0 <= k <= b.len(),
    ensures
        depth_at(a + b, a.len() + k) == depth_at(a, a.len() as int) + depth_at(b, k),
    decreases k,
{
    if k == 0 {
        lemma_depth_prefix(a, b, a.len() as int);
    } else {
        lemma_depth_concat(a, b, k - 1);
        assert((a + b)[a.len() + k - 1] == b[k - 1]);
    }
}

/// What one instruction renders to: never empty, ending in `]` exactly for
/// loops, and a loop's rendering wraps its body's in one bracket pair.
proof fn lemma_render_instr_shape(ins: Instr)
    ensures
        render_instr(ins).len() >= 1,
        ins is Loop <==> render_instr(ins).last() == ']',
        !(ins is Loop) ==> render_instr(ins).len() == 1 && bracket_delta(
            render_instr(ins)[0],
        ) == 0,
{
    match ins {
        Instr::Loop(body) => {
            let r = render_instr(ins);
            assert(r =~= (seq!['['] + render_prog(body)) + seq![']']);
            assert(r.last() == ']');
        },
        _ => {},
    }
}

/// Whatever a program or an instruction renders to is well-bracketed.
proof fn lemma_render_instr_wb(ins: Instr)
    ensures
        well_bracketed(render_instr(ins)),
    decreases ins,
{
    let r = render_instr(ins);
    match ins {
        Instr::Loop(body) => {
            lemma_render_prog_wb(body);
            let rb = render_prog(body);
            let opening = seq!['['] + rb;
            let closing = seq![']'];
            assert(r =~= opening + closing);
            assert(seq!['['][0] == '[' && closing[0] == ']');
            assert(depth_at(seq!['['], 1) == depth_at(seq!['['], 0) + bracket_delta(
                seq!['['][0],
            ));
            assert(depth_at(closing, 1) == depth_at(closing, 0) + bracket_delta(closing[0]));
            assert forall|i: int|
                1 <= i <= opening.len() implies depth_at(opening, i) == 1 + depth_at(
                rb,
                i - 1,
            ) by {
                lemma_depth_concat(seq!['['], rb, i - 1);
            }
            assert forall|i: int| 0 <= i <= r.len() implies depth_at(r, i) >= 0 by {
                if i <= opening.len() {
                    lemma_depth_prefix(opening, closing, i);
                } else {
                    lemma_depth_concat(opening, closing, 1);
                }
            }
            lemma_depth_concat(opening, closing, 1);
        },
        _ => {
            lemma_render_instr_shape(ins);
            assert forall|i: int| 0 <= i <= r.len() implies depth_at(r, i) >= 0 by {
                assert(depth_at(r, 0) == 0);
                assert(depth_at(r, 1) == depth_at(r, 0) + bracket_delta(r[0]));
            }
            assert(depth_at(r, 1) == depth_at(r, 0) + bracket_delta(r[0]));
        },
    }
}

proof fn lemma_wb_concat(a: Seq<char>, b: Seq<char>)
    requires
        well_bracketed(a),
        well_bracketed(b),
    ensures
        well_bracketed(a + b),
{
    assert forall|i: int| 0 <= i <= (a + b).len() implies depth_at(a + b, i) >= 0 by {
        if i <= a.len() {
            lemma_depth_prefix(a, b, i);
        } else {
            lemma_depth_concat(a, b, i - a.len());
        }
    }
    lemma_depth_concat(a, b, b.len() as int);
}

/// Whatever a program renders to is well-bracketed.
proof fn lemma_render_prog_wb(p: Seq<Instr>)
    ensures
        well_bracketed(render_prog(p)),
    decreases p,
{
    if p.len() == 0 {
    } else {
        lemma_render_prog_wb(p.drop_last());
        lemma_render_instr_wb(p.last());
        lemma_wb_concat(render_prog(p.drop_last()), render_instr(p.last()));
    }
}

proof fn lemma_all_commands_id(s: Seq<char>)
    requires
        forall|j: int| 0 <= j < s.len() ==> is_command(s[j]),
    ensures
        command_chars(s) == s,
    decreases s.len(),
{
    if s.len() > 0 {
        lemma_all_commands_id(s.drop_last());
        assert(command_chars(s) =~= s);
    }
}

proof fn lemma_render_instr_commands(ins: Instr)
    ensures
        forall|j: int| 0 <= j < render_instr(ins).len() ==> is_command(render_instr(ins)[j]),
    decreases ins,
{
    let r = render_instr(ins);
    match ins {
        Instr::Loop(body) => {
            lemma_render_prog_commands(body);
            let rb = render_prog(body);
            assert(r =~= seq!['['] + rb + seq![']']);
            assert forall|j: int| 0 <= j < r.len() implies is_command(r[j]) by {
                if j == 0 {
                    assert(r[0] == '[');
                } else if j <= rb.len() {
                    assert(r[j] == rb[j - 1]);
                } else {
                    assert(r[j] == ']');
                }
            }
        },
        _ => {
            assert forall|j: int| 0 <= j < r.len() implies is_command(r[j]) by {
                assert(r.len() == 1);
            }
        },
    }
}

proof fn lemma_render_prog_commands(p: Seq<Instr>)
    ensures
        forall|j: int| 0 <= j < render_prog(p).len() ==> is_command(render_prog(p)[j]),
    decreases p,
{
    if p.len() > 0 {
        lemma_render_prog_commands(p.drop_last());
        lemma_render_instr_commands(p.last());
        let h = render_prog(p.drop_last());
        let ri = render_instr(p.last());
        assert forall|j: int| 0 <= j < render_prog(p).len() implies is_command(
            render_prog(p)[j],
        ) by {
            if j < h.len() {
                assert(render_prog(p)[j] == h[j]);
            } else {
                assert(render_prog(p)[j] == ri[j - h.len()]);
            }
        }
    }
}

/// A tree's rendering parses back to the tree: the rendering is
/// well-bracketed and consists of command characters only, so `parse`
/// must accept it and — its contract and `lemma_render_injective`
/// combined — must return exactly the tree that was rendered.
pub proof fn lemma_render_reparses(p: Seq<Instr>)
    ensures
        well_bracketed(render_prog(p)),
        command_chars(render_prog(p)) == render_prog(p),
{
    lemma_render_prog_wb(p);
    lemma_render_prog_commands(p);
    lemma_all_commands_id(render_prog(p));
}

/// Two renderings of a head followed by a bracket-opened body can only form
/// the same string with heads of the same length: the shorter head's `[`
/// would otherwise stand inside the other body at a nesting depth that the
/// body's well-bracketing refutes.
proof fn lemma_loop_split_unique(h1: Seq<char>, r1: Seq<char>, h2: Seq<char>, r2: Seq<char>)
    requires
        h1 + seq!['['] + r1 == h2 + seq!['['] + r2,
        well_bracketed(r1),
        well_bracketed(r2),
    ensures
        h1.len() == h2.len(),
    decreases h1.len(),
{
    if h1.len() > h2.len() {
        lemma_loop_split_unique(h2, r2, h1, r1);
    } else if h1.len() < h2.len() {
        let g = h1 + seq!['['] + r1;
        let d = h2.len() - h1.len() - 1;
        assert(g.len() == h1.len() + 1 + r1.len());
        assert(g.len() == h2.len() + 1 + r2.len());
        assert(d < r1.len());
        assert(g[h2.len() as int] == '[');
        assert(g[h1.len() + 1 + d] == r1[d]);
        assert(h1.len() + 1 + d == h2.len());
        assert(r1[d] == '[');
        let front = r1.take(d + 1);
        assert(r1 =~= front + r2) by {
            assert forall|j: int| 0 <= j < r2.len() implies r1[d + 1 + j] == r2[j] by {
                assert(g[h1.len() + 1 + (d + 1 + j)] == r1[d + 1 + j]);
                assert(g[h2.len() + 1 + j] == r2[j]);
            }
        }
        lemma_depth_concat(front, r2, r2.len() as int);
        lemma_depth_prefix(front, r2, d + 1);
        assert(depth_at(r1, d + 1) == depth_at(r1, d) + bracket_delta(r1[d]));
        assert(false);
    }
}

/// Rendering is injective: two programs that print to the same command
/// characters are the same program. Together with the rendering equation in
/// the `parse` contract, this pins the parsed tree completely: parsing is
/// deterministic, one tree per command sequence.
pub proof fn lemma_render_injective(p1: Seq<Instr>, p2: Seq<Instr>)
    requires
        render_prog(p1) == render_prog(p2),
    ensures
        p1 == p2,
    decreases render_prog(p1).len(),
{
    let f = render_prog(p1);
    if p1.len() == 0 || p2.len() == 0 {
        if p1.len() > 0 {
            lemma_render_instr_shape(p1.last());
            assert(f.len() >= 1);
        }
        if p2.len() > 0 {
            lemma_render_instr_shape(p2.last());
            assert(f.len() >= 1);
        }
        assert(p1.len() == 0 && p2.len() == 0);
        assert(p1 =~= p2);
    } else {
        let a1 = p1.drop_last();
        let x1 = p1.last();
        let a2 = p2.drop_last();
        let x2 = p2.last();
        let h1 = render_prog(a1);
        let r1i = render_instr(x1);
        let h2 = render_prog(a2);
        let r2i = render_instr(x2);
        lemma_render_instr_shape(x1);
        lemma_render_instr_shape(x2);
        assert(f == h1 + r1i && f == h2 + r2i);
        assert(f[f.len() - 1] == r1i[r1i.len() - 1]);
        assert(f[f.len() - 1] == r2i[r2i.len() - 1]);
        if x1 is Loop && x2 is Loop {
            let b1 = x1->Loop_0;
            let b2 = x2->Loop_0;
            let rb1 = render_prog(b1);
            let rb2 = render_prog(b2);
            lemma_render_prog_wb(b1);
            lemma_render_prog_wb(b2);
            assert(f.len() == h1.len() + rb1.len() + 2);
            assert(f.len() == h2.len() + rb2.len() + 2);
            let g = f.take(f.len() - 1);
            assert(g =~= h1 + seq!['['] + rb1);
            assert(g =~= h2 + seq!['['] + rb2);
            lemma_loop_split_unique(h1, rb1, h2, rb2);
            assert(h1 =~= h2) by {
                assert forall|j: int| 0 <= j < h1.len() implies h1[j] == h2[j] by {
                    assert(g[j] == h1[j] && g[j] == h2[j]);
                }
            }
            assert(rb1 =~= rb2) by {
                assert forall|j: int| 0 <= j < rb1.len() implies rb1[j] == rb2[j] by {
                    assert(g[h1.len() + 1 + j] == rb1[j]);
                    assert(g[h2.len() + 1 + j] == rb2[j]);
                }
            }
            lemma_render_injective(b1, b2);
            lemma_render_injective(a1, a2);
            assert(p1 =~= a1.push(x1));
            assert(p2 =~= a2.push(x2));
        } else if !(x1 is Loop) && !(x2 is Loop) {
            assert(r1i[0] == r2i[0]);
            assert(x1 == x2);
            assert(h1 =~= h2) by {
                assert forall|j: int| 0 <= j < h1.len() implies h1[j] == h2[j] by {
                    assert(f[j] == h1[j] && f[j] == h2[j]);
                }
            }
            lemma_render_injective(a1, a2);
            assert(p1 =~= a1.push(x1));
            assert(p2 =~= a2.push(x2));
        } else {
            assert(false);
        }
    }
}

/// Every source text falls under exactly one of the three parse outcomes:
/// well-bracketed, a close bracket that overruns its opens, or properly
/// nested but with opens left over.
pub proof fn lemma_bracket_taxonomy(s: Seq<char>)
    ensures
        well_bracketed(s) <==> (no_close_overrun(s) && depth_at(s, s.len() as int) == 0),
        !no_close_overrun(s) || depth_at(s, s.len() as int) >= 0,
        well_bracketed(s) || !no_close_overrun(s) || depth_at(s, s.len() as int) > 0,
        !(well_bracketed(s) && !no_close_overrun(s)),
        well_bracketed(s) ==> depth_at(s, s.len() as int) == 0,
{
    if no_close_overrun(s) {
        assert(depth_at(s, s.len() as int) >= 0);
    }
}

/// Parsing then reserializing recovers the command sequence. `parse` ensures
/// of every tree it returns that the tree prints back to exactly the command
/// characters of the source, and `to_source` prints a tree; so the tree
/// determines the command sequence, and parsing is injective on structure:
/// two sources with the same tree share their command characters.
pub proof fn lemma_parse_round_trip(src1: Seq<char>, src2: Seq<char>, prog: Seq<Instr>)
    requires
        render_prog(prog) == command_chars(src1),
        render_prog(prog) == command_chars(src2),
    ensures
        command_chars(src1) == command_chars(src2),
{
}

impl Ast {
    /// Parse source text into an instruction tree.
    ///
    /// Junk characters are skipped; the six terminal commands map one-to-one
    /// to instructions; `[` opens a loop running to its matching `]`. On
    /// success the tree prints back to exactly the command characters of the
    /// source. A `]` with no open loop fails with `UnmatchedCloseBracket` at
    /// its position; a `[` never closed fails with `UnterminatedLoop` at the
    /// position of the outermost such `[`.
    pub fn parse(src: &str) -> (r: Result<Ast, ParseError>)
        ensures
            match r {
                Ok(ast) => well_bracketed(src@) && render_prog(ast@) == command_chars(src@),
                Err(ParseError::UnmatchedCloseBracket(pos)) => pos < src@.len() && src@[
                    pos as int
                ] == ']' && depth_at(src@, pos + 1) < 0 && forall|j: int|
                    0 <= j <= pos ==> depth_at(src@, j) >= 0,
                Err(ParseError::UnterminatedLoop(pos)) => pos < src@.len() && src@[pos as int]
                    == '[' && no_close_overrun(src@) && depth_at(src@, pos as int) == 0 && forall|
                    j: int,
                |
                    pos < j <= src@.len() ==> depth_at(src@, j) > 0,
            },
    {
        let n = src.unicode_len();
        let mut bodies: Vec<Vec<Token>> = Vec::new();
        bodies.push(Vec::new());
        let mut open0: usize = 0;
        let mut i: usize = 0;
        while i < n
            invariant
                n == src@.len(),
                i <= n,
                bodies@.len() >= 1,
                depth_at(src@, i as int) == bodies@.len() - 1,
                forall|j: int| 0 <= j <= i ==> depth_at(src@, j) >= 0,
                command_chars(src@.take(i as int)) == render_stack(bodies_views(bodies@)),
                bodies@.len() > 1 ==> open0 < i && src@[open0 as int] == '[' && depth_at(
                    src@,
                    open0 as int,
                ) == 0 && forall|j: int| open0 < j <= i ==> depth_at(src@, j) > 0,
            decreases n - i,
        {
            let c = src.get_char(i);
            proof {
                lemma_command_chars_step(src@, i as int);
            }
            if c == ']' {
                if bodies.len() == 1 {
                    return Err(ParseError::UnmatchedCloseBracket(i));
                }
                let ghost orig = bodies@;
                let ghost bv = bodies_views(orig);
                let inner = match bodies.pop() {
                    Some(b) => b,
                    None => Vec::new(),
                };
                let mut top = match bodies.pop() {
                    Some(b) => b,
                    None => Vec::new(),
                };
                top.push(Token::Loop(inner));
                bodies.push(top);
                proof {
                    lemma_tokens_view_push(orig[orig.len() - 2]@, Token::Loop(inner));
                    lemma_render_stack_push_last(
                        bv.drop_last(),
                        Instr::Loop(tokens_view(inner@)),
                    );
                    assert(bv.drop_last().last() == bv[bv.len() - 2]);
                    assert(bodies_views(bodies@) =~~= bv.drop_last().update(
                        bv.len() - 2,
                        bv.drop_last().last().push(Instr::Loop(tokens_view(inner@))),
                    ));
                    assert(render_stack(bv) == render_stack(bv.drop_last()) + seq!['[']
                        + render_prog(bv.last()));
                    assert(bv.last() == tokens_view(inner@));
                    assert(render_instr(Instr::Loop(tokens_view(inner@))) == seq!['[']
                        + render_prog(tokens_view(inner@)) + seq![']']);
                    assert(command_chars(src@.take(i + 1)) =~= render_stack(
                        bodies_views(bodies@),
                    ));
                }
            } else if c == '[' {
                let ghost orig = bodies@;
                if bodies.len() == 1 {
                    open0 = i;
                }
                bodies.push(Vec::new());
                proof {
                    let bv = bodies_views(orig);
                    assert(bodies_views(bodies@).drop_last() =~~= bv);
                    assert(bodies_views(bodies@).last() =~= Seq::<Instr>::empty());
                    assert(render_prog(Seq::<Instr>::empty()) =~= Seq::<char>::empty());
                    assert(render_stack(bodies_views(bodies@)) == render_stack(
                        bodies_views(bodies@).drop_last(),
                    ) + seq!['['] + render_prog(bodies_views(bodies@).last()));
                    assert(command_chars(src@.take(i + 1)) =~= render_stack(
                        bodies_views(bodies@),
                    ));
                }
            } else {
                let tok: Option<Token> = if c == '>' {
                    Some(Token::Next)
                } else if c == '<' {
                    Some(Token::Previous)
                } else if c == '+' {
                    Some(Token::Incr)
                } else if c == '-' {
                    Some(Token::Decr)
                } else if c == ',' {
                    Some(Token::Input)
                } else if c == '.' {
                    Some(Token::Output)
                } else {
                    None
                };
                match tok {
                    Some(t) => {
                        let ghost old_bodies = bodies@;
                        let mut top = match bodies.pop() {
                            Some(b) => b,
                            None => Vec::new(),
                        };
                        let ghost tv = token_view(t);
                        top.push(t);
                        bodies.push(top);
                        proof {
                            lemma_tokens_view_push(old_bodies.last()@, t);
                            lemma_render_stack_push_last(bodies_views(old_bodies), tv);
                            assert(bodies_views(bodies@) =~= bodies_views(old_bodies).update(
                                old_bodies.len() - 1,
                                bodies_views(old_bodies).last().push(tv),
                            ));
                            assert(render_instr(tv) =~= seq![src@[i as int]]);
                            assert(command_chars(src@.take(i + 1)) =~= render_stack(
                                bodies_views(bodies@),
                            ));
                        }
                    },
                    None => {
                        proof {
                            assert(command_chars(src@.take(i + 1)) == render_stack(
                                bodies_views(bodies@),
                            ));
                        }
                    },
                }
            }
            i = i + 1;
        }
        if bodies.len() > 1 {
            return Err(ParseError::UnterminatedLoop(open0));
        }
        let root = match bodies.pop() {
            Some(b) => b,
            None => Vec::new(),
        };
        proof {
            assert(src@.take(n as int) =~= src@);
        }
        Ok(Ast { root })
    }

    /// Print the tree back to its command characters.
    pub fn to_source(&self) -> (r: String)
        ensures
            r@ == render_prog(self@),
    {
        let mut out = String::new();
        let mut k: usize = 0;
        while k < self.root.len()
            invariant
                k <= self.root@.len(),
                out@ == render_prog(tokens_view(self.root@.take(k as int))),
            decreases self.root@.len() - k,
        {
            render_token(&self.root[k], &mut out);
            proof {
                assert(self.root@.take(k + 1).drop_last() =~= self.root@.take(k as int));
                assert(self.root@.take(k + 1).last() == self.root@[k as int]);
                lemma_render_prog_push(
                    tokens_view(self.root@.take(k as int)),
                    token_view(self.root@[k as int]),
                );
            }
            k = k + 1;
        }
        proof {
            assert(self.root@.take(self.root@.len() as int) =~= self.root@);
        }
        out
    }
}

/// Append one token's command characters to `out`.
fn render_token(t: &Token, out: &mut String)
    ensures
        final(out)@ == old(out)@ + render_instr(t@),
    decreases t,
{
    proof {
        reveal_strlit(">");
        reveal_strlit("<");
        reveal_strlit("+");
        reveal_strlit("-");
        reveal_strlit(",");
        reveal_strlit(".");
        reveal_strlit("[");
        reveal_strlit("]");
    }
    match t {
        Token::Next => {
            out.append(">");
            proof {
                assert(final(out)@ =~= old(out)@ + render_instr(t@));
            }
        },
        Token::Previous => {
            out.append("<");
            proof {
                assert(final(out)@ =~= old(out)@ + render_instr(t@));
            }
        },
        Token::Incr => {
            out.append("+");
            proof {
                assert(final(out)@ =~= old(out)@ + render_instr(t@));
            }
        },
        Token::Decr => {
            out.append("-");
            proof {
                assert(final(out)@ =~= old(out)@ + render_instr(t@));
            }
        },
        Token::Input => {
            out.append(",");
            proof {
                assert(final(out)@ =~= old(out)@ + render_instr(t@));
            }
        },
        Token::Output => {
            out.append(".");
            proof {
                assert(final(out)@ =~= old(out)@ + render_instr(t@));
            }
        },
        Token::Loop(body) => {
            out.append("[");
            let ghost entry = out@;
            let mut k: usize = 0;
            while k < body.len()
                invariant
                    *t == Token::Loop(*body),
                    k <= body@.len(),
                    out@ == entry + render_prog(tokens_view(body@.take(k as int))),
                decreases body@.len() - k,
            {
                proof {
                    assert(decreases_to!(*t => body@[k as int])) by {
                        assert(decreases_to!(*t => t->Loop_0));
                        assert(decreases_to!(t->Loop_0 => t->Loop_0@));
                        assert(decreases_to!(t->Loop_0@ => t->Loop_0@[k as int]));
                        assert(t->Loop_0@ == body@);
                    }
                }
                render_token(&body[k], out);
                proof {
                    assert(body@.take(k + 1).drop_last() =~= body@.take(k as int));
                    assert(body@.take(k + 1).last() == body@[k as int]);
                    lemma_render_prog_push(
                        tokens_view(body@.take(k as int)),
                        token_view(body@[k as int]),
                    );
                }
                k = k + 1;
            }
            out.append("]");
            proof {
                assert(body@.take(body@.len() as int) =~= body@);
                assert(final(out)@ =~= old(out)@ + render_instr(t@));
            }
        },
    }
}

impl core::str::FromStr for Ast {
    type Err = ParseError;

    /// Same contract as [`Ast::parse`], which this forwards to.
    fn from_str(s: &str) -> (r: Result<Ast, ParseError>)
        ensures
            match r {
                Ok(ast) => well_bracketed(s@) && render_prog(ast@) == command_chars(s@),
                Err(ParseError::UnmatchedCloseBracket(pos)) => pos < s@.len() && s@[pos as int]
                    == ']' && depth_at(s@, pos + 1) < 0 && forall|j: int|
                    0 <= j <= pos ==> depth_at(s@, j) >= 0,
                Err(ParseError::UnterminatedLoop(pos)) => pos < s@.len() && s@[pos as int] == '['
                    && no_close_overrun(s@) && depth_at(s@, pos as int) == 0 && forall|j: int|
                    pos < j <= s@.len() ==> depth_at(s@, j) > 0,
            },
    {
        Ast::parse(s)
    }
}

} // verus!
