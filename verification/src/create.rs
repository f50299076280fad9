//! Pattern syntax: the tree of a parsed pattern, the parser that builds it
//! from a pattern string, and the printer that turns a tree back into text.

use vstd::prelude::*;

verus! {

/// A node of the pattern tree. `Concatenation` and `Alternation` own at
/// least two children once built by the parser; a single operand is never
/// wrapped. `Alternation` children are in priority order: the first branch
/// is preferred by the matcher.
#[derive(Debug, PartialEq, Eq)]
pub enum Regexp {
    Char(char),
    Concatenation(Vec<Regexp>),
    Alternation(Vec<Regexp>),
    Optional(Box<Regexp>),
    Repeated(Box<Regexp>),
    OptionalRepeated(Box<Regexp>),
}

/// A parse failure. Every position is a 0-indexed codepoint offset into the
/// original top-level pattern string, even when the failure arose inside a
/// nested group.
#[derive(Debug, PartialEq, Eq)]
pub enum RegexpError {
    EmptyRegexp,
    EmptyGroup(usize),
    EmptyAlternative(usize),
    MisplacedOperator(usize),
    UnmatchedParenthesis(usize),
}

/// The mathematical model of a pattern tree: the same shape as `Regexp`,
/// with `Seq` in place of `Vec`. Contracts speak of this type.
pub ghost enum RegexpView {
    Char(char),
    Concatenation(Seq<RegexpView>),
    Alternation(Seq<RegexpView>),
    Optional(Box<RegexpView>),
    Repeated(Box<RegexpView>),
    OptionalRepeated(Box<RegexpView>),
}

pub open spec fn regexp_view(r: Regexp) -> RegexpView
    decreases r,
{
    match r {
        Regexp::Char(c) => RegexpView::Char(c),
        Regexp::Concatenation(rs) => RegexpView::Concatenation(view_seq(rs@)),
        Regexp::Alternation(rs) => RegexpView::Alternation(view_seq(rs@)),
        Regexp::Optional(b) => RegexpView::Optional(Box::new(regexp_view(*b))),
        Regexp::Repeated(b) => RegexpView::Repeated(Box::new(regexp_view(*b))),
        Regexp::OptionalRepeated(b) => RegexpView::OptionalRepeated(Box::new(regexp_view(*b))),
    }
}

pub open spec fn view_seq(s: Seq<Regexp>) -> Seq<RegexpView>
    decreases s,
{
    if s.len() == 0 {
        Seq::empty()
    } else {
        seq![regexp_view(s[0])] + view_seq(s.drop_first())
    }
}

impl View for Regexp {
    type V = RegexpView;

    open spec fn view(&self) -> RegexpView {
        regexp_view(*self)
    }
}

pub proof fn lemma_view_seq(s: Seq<Regexp>)
    ensures
        view_seq(s).len() == s.len(),
        forall|i: int| 0 <= i < s.len() ==> view_seq(s)[i] == regexp_view(#[trigger] s[i]),
    decreases s,
{
    if s.len() > 0 {
        lemma_view_seq(s.drop_first());
        assert(forall|i: int| 1 <= i < s.len() ==> #[trigger] s[i] == s.drop_first()[i - 1]);
        assert(forall|i: int| 1 <= i < s.len() ==> view_seq(s)[i] == view_seq(s.drop_first())[i - 1]);
    }
}

/// Well-formedness of a pattern tree: every `Concatenation` and
/// `Alternation` holds at least two children. The parser only builds
/// well-formed trees; the compiler relies on it.
pub open spec fn view_wf(v: RegexpView) -> bool
    decreases v,
{
    match v {
        RegexpView::Char(_) => true,
        RegexpView::Concatenation(vs) => vs.len() >= 2 && wf_seq(vs),
        RegexpView::Alternation(vs) => vs.len() >= 2 && wf_seq(vs),
        RegexpView::Optional(b) => view_wf(*b),
        RegexpView::Repeated(b) => view_wf(*b),
        RegexpView::OptionalRepeated(b) => view_wf(*b),
    }
}

pub open spec fn wf_seq(s: Seq<RegexpView>) -> bool
    decreases s,
{
    if s.len() == 0 {
        true
    } else {
        view_wf(s[0]) && wf_seq(s.drop_first())
    }
}

pub proof fn lemma_wf_seq_index(s: Seq<RegexpView>)
    ensures
        wf_seq(s) <==> (forall|i: int| 0 <= i < s.len() ==> view_wf(#[trigger] s[i])),
    decreases s,
{
    if s.len() > 0 {
        lemma_wf_seq_index(s.drop_first());
        assert(forall|i: int| 1 <= i < s.len() ==> #[trigger] s[i] == s.drop_first()[i - 1]);
    }
}

pub proof fn lemma_view_seq_push(s: Seq<Regexp>, r: Regexp)
    ensures
        view_seq(s.push(r)) == view_seq(s).push(regexp_view(r)),
{
    lemma_view_seq(s.push(r));
    lemma_view_seq(s);
    assert forall|i: int| 0 <= i < s.push(r).len() implies view_seq(s.push(r))[i] == view_seq(
        s,
    ).push(regexp_view(r))[i] by {
        assert(view_seq(s.push(r))[i] == regexp_view(s.push(r)[i]));
        if i < s.len() {
            assert(s.push(r)[i] == s[i]);
        } else {
            assert(s.push(r)[i] == r);
        }
    }
    assert(view_seq(s.push(r)) =~= view_seq(s).push(regexp_view(r)));
}

pub proof fn lemma_view_seq_subrange(s: Seq<Regexp>, a: int, b: int)
    requires
        0 <= a <= b <= s.len(),
    ensures
        view_seq(s.subrange(a, b)) == view_seq(s).subrange(a, b),
{
    lemma_view_seq(s.subrange(a, b));
    lemma_view_seq(s);
    assert forall|i: int| 0 <= i < b - a implies view_seq(s.subrange(a, b))[i] == view_seq(
        s,
    ).subrange(a, b)[i] by {
        assert(view_seq(s.subrange(a, b))[i] == regexp_view(s.subrange(a, b)[i]));
        assert(s.subrange(a, b)[i] == s[a + i]);
    }
    assert(view_seq(s.subrange(a, b)) =~= view_seq(s).subrange(a, b));
}

/// The parser's working state at one position of the pattern string:
/// the operand stack, the number of alternation branches already closed
/// at the current level, the raw text accumulated for the currently open
/// outermost group, the positions of the still-open parentheses, and the
/// escape flag.
pub ghost struct ParseState {
    pub stack: Seq<RegexpView>,
    pub alts: int,
    pub group: Seq<char>,
    pub opens: Seq<usize>,
    pub escaped: bool,
}

pub open spec fn init_state() -> ParseState {
    ParseState {
        stack: Seq::empty(),
        alts: 0,
        group: Seq::empty(),
        opens: Seq::empty(),
        escaped: false,
    }
}

/// Close one alternation branch: the operands pushed since the last branch
/// (those above index `alts`) become the branch, a single operand as
/// itself, several wrapped in a `Concatenation`.
pub open spec fn fold_branch(stack: Seq<RegexpView>, alts: int) -> Seq<RegexpView> {
    let ops = stack.subrange(alts, stack.len() as int);
    let b = if ops.len() == 1 {
        ops[0]
    } else {
        RegexpView::Concatenation(ops)
    };
    stack.subrange(0, alts).push(b)
}

/// Map an error of a recursive group parse into the outer string's
/// coordinates: a failure on empty group text becomes `EmptyGroup` just
/// before the closing parenthesis at `close`, and every inner position is
/// shifted by `close - glen`, the offset of the group text in the outer
/// string.
pub open spec fn translate_err(e: RegexpError, close: int, glen: int) -> RegexpError {
    match e {
        RegexpError::EmptyRegexp => RegexpError::EmptyGroup((close - 1) as usize),
        RegexpError::EmptyGroup(p) => RegexpError::EmptyGroup((p + close - glen) as usize),
        RegexpError::EmptyAlternative(p) => RegexpError::EmptyAlternative(
            (p + close - glen) as usize,
        ),
        RegexpError::MisplacedOperator(p) => RegexpError::MisplacedOperator(
            (p + close - glen) as usize,
        ),
        RegexpError::UnmatchedParenthesis(p) => RegexpError::UnmatchedParenthesis(
            (p + close - glen) as usize,
        ),
    }
}

/// End of input: report a still-open group, an empty pattern, or close the
/// final alternation branch; otherwise the result is the sole operand, a
/// `Concatenation` of the operands, or the `Alternation` of the branches.
pub open spec fn sp_finish(s: Seq<char>, st: ParseState) -> Result<RegexpView, RegexpError> {
    if st.opens.len() > 0 {
        Err(RegexpError::UnmatchedParenthesis(st.opens.last()))
    } else if st.stack.len() == 0 {
        Err(RegexpError::EmptyRegexp)
    } else if st.alts > 0 {
        if st.stack.len() == st.alts {
            Err(RegexpError::EmptyAlternative((s.len() - 1) as usize))
        } else {
            Ok(RegexpView::Alternation(fold_branch(st.stack, st.alts)))
        }
    } else if st.stack.len() == 1 {
        Ok(st.stack[0])
    } else {
        Ok(RegexpView::Concatenation(st.stack))
    }
}


/// Successor states of one parsing step, named for reuse in proofs.
pub open spec fn st_literal(st: ParseState, c: char) -> ParseState {
    ParseState {
        stack: st.stack.push(RegexpView::Char(c)),
        alts: st.alts,
        group: st.group,
        opens: st.opens,
        escaped: false,
    }
}

pub open spec fn st_open(st: ParseState, i: int) -> ParseState {
    ParseState {
        stack: st.stack,
        alts: st.alts,
        group: if st.opens.len() > 0 {
            st.group.push('(')
        } else {
            Seq::empty()
        },
        opens: st.opens.push(i as usize),
        escaped: st.escaped,
    }
}

pub open spec fn st_close_push(st: ParseState, v: RegexpView) -> ParseState {
    ParseState {
        stack: st.stack.push(v),
        alts: st.alts,
        group: st.group,
        opens: st.opens.drop_last(),
        escaped: st.escaped,
    }
}

pub open spec fn st_close_nested(st: ParseState) -> ParseState {
    ParseState {
        stack: st.stack,
        alts: st.alts,
        group: st.group.push(')'),
        opens: st.opens.drop_last(),
        escaped: st.escaped,
    }
}

pub open spec fn st_accum(st: ParseState, c: char) -> ParseState {
    ParseState {
        stack: st.stack,
        alts: st.alts,
        group: st.group.push(c),
        opens: st.opens,
        escaped: st.escaped,
    }
}

pub open spec fn st_escape(st: ParseState) -> ParseState {
    ParseState {
        stack: st.stack,
        alts: st.alts,
        group: st.group,
        opens: st.opens,
        escaped: true,
    }
}

pub open spec fn st_fold(st: ParseState) -> ParseState {
    ParseState {
        stack: fold_branch(st.stack, st.alts),
        alts: st.alts + 1,
        group: st.group,
        opens: st.opens,
        escaped: st.escaped,
    }
}

pub open spec fn wrap_quantifier(c: char, v: RegexpView) -> RegexpView {
    if c == '?' {
        RegexpView::Optional(Box::new(v))
    } else if c == '+' {
        RegexpView::Repeated(Box::new(v))
    } else {
        RegexpView::OptionalRepeated(Box::new(v))
    }
}

pub open spec fn st_wrap(st: ParseState, c: char) -> ParseState {
    ParseState {
        stack: st.stack.update(st.stack.len() - 1, wrap_quantifier(c, st.stack.last())),
        alts: st.alts,
        group: st.group,
        opens: st.opens,
        escaped: st.escaped,
    }
}

/// The parser, as a function: process the characters of `s` from index `i`
/// in the state `st`. One rule fires per character, in priority order: an
/// escaped character is a literal; parentheses open and close groups, a
/// closed outermost group is parsed recursively and its errors are
/// translated outward; inside a group text is only accumulated; `\` sets
/// the escape flag; `|` closes a branch; `?`, `+`, `*` wrap the operand on
/// top of the stack; anything else is a literal.
pub open spec fn sp_run(s: Seq<char>, st: ParseState, i: int) -> Result<RegexpView, RegexpError>
    decreases s.len() as int, 0int, s.len() - i,
{
    if i >= s.len() {
        sp_finish(s, st)
    } else {
        let c = s[i];
        if st.escaped {
            sp_run(s, st_literal(st, c), i + 1)
        } else if c == '(' {
            sp_run(s, st_open(st, i), i + 1)
        } else if c == ')' {
            if st.opens.len() == 0 {
                Err(RegexpError::UnmatchedParenthesis(i as usize))
            } else if st.opens.len() == 1 {
                let g = st.group;
                // the accumulated group text is always shorter than the whole
                // input; the guard only serves the termination measure
                let sub = if g.len() < s.len() {
                    sp_parse(g)
                } else {
                    Err(RegexpError::EmptyRegexp)
                };
                match sub {
                    Ok(v) => sp_run(s, st_close_push(st, v), i + 1),
                    Err(e) => Err(translate_err(e, i, g.len() as int)),
                }
            } else {
                sp_run(s, st_close_nested(st), i + 1)
            }
        } else if st.opens.len() > 0 {
            sp_run(s, st_accum(st, c), i + 1)
        } else if c == '\\' {
            sp_run(s, st_escape(st), i + 1)
        } else if c == '|' {
            if st.stack.len() == st.alts {
                Err(RegexpError::EmptyAlternative(i as usize))
            } else {
                sp_run(s, st_fold(st), i + 1)
            }
        } else if c == '?' || c == '+' || c == '*' {
            if st.stack.len() == st.alts {
                Err(RegexpError::MisplacedOperator(i as usize))
            } else {
                sp_run(s, st_wrap(st, c), i + 1)
            }
        } else {
            sp_run(s, st_literal(st, c), i + 1)
        }
    }
}

/// What parsing a pattern string yields: the model tree, or the error with
/// its position in this very string.
pub open spec fn sp_parse(s: Seq<char>) -> Result<RegexpView, RegexpError>
    decreases s.len() as int, 1int, 0int,
{
    sp_run(s, init_state(), 0)
}

/// The view of a parse result: the tree's model on success, the error
/// unchanged on failure.
pub open spec fn parse_result_view(res: Result<Regexp, RegexpError>) -> Result<
    RegexpView,
    RegexpError,
> {
    match res {
        Ok(r) => Ok(regexp_view(r)),
        Err(e) => Err(e),
    }
}

/// Every positioned error speaks of an index inside the input.
pub open spec fn err_pos_ok(e: RegexpError, n: int) -> bool {
    match e {
        RegexpError::EmptyRegexp => true,
        RegexpError::EmptyGroup(p) => p < n,
        RegexpError::EmptyAlternative(p) => p < n,
        RegexpError::MisplacedOperator(p) => p < n,
        RegexpError::UnmatchedParenthesis(p) => p < n,
    }
}

/// The parser state's invariant at position `i`: all recorded open-paren
/// positions lie before `i`; while a group is open, exactly the characters
/// strictly between the outermost `(` and `i` have been accumulated; the
/// branch counter never exceeds the operand stack; a branch was only ever
/// closed after at least one character.
pub open spec fn st_inv(s: Seq<char>, st: ParseState, i: int) -> bool {
    &&& 0 <= i <= s.len()
    &&& 0 <= st.alts <= st.stack.len()
    &&& forall|j: int| 0 <= j < st.opens.len() ==> (#[trigger] st.opens[j]) < i
    &&& st.opens.len() > 0 ==> st.group.len() == i - st.opens[0] - 1
    &&& st.alts > 0 ==> i >= 1
    &&& st.escaped ==> st.opens.len() == 0
}

/// Parse errors always point into the input string.
pub proof fn lemma_sp_parse_err_pos(s: Seq<char>)
    requires
        s.len() <= usize::MAX,
    ensures
        match sp_parse(s) {
            Err(e) => err_pos_ok(e, s.len() as int),
            Ok(_) => true,
        },
    decreases s.len() as int, 1int, 0int, 0int,
{
    lemma_sp_run_err_pos(s, init_state(), 0);
}

proof fn lemma_sp_run_err_pos(s: Seq<char>, st: ParseState, i: int)
    requires
        st_inv(s, st, i),
        s.len() <= usize::MAX,
    ensures
        match sp_run(s, st, i) {
            Err(e) => err_pos_ok(e, s.len() as int),
            Ok(_) => true,
        },
    decreases s.len() as int, 0int, s.len() - i, 1int,
{
    if i >= s.len() {
    } else {
        lemma_sp_run_err_pos_step(s, st, i, s[i]);
    }
}

proof fn lemma_sp_run_err_pos_step(s: Seq<char>, st: ParseState, i: int, c: char)
    requires
        st_inv(s, st, i),
        s.len() <= usize::MAX,
        0 <= i < s.len(),
        c == s[i],
    ensures
        match sp_run(s, st, i) {
            Err(e) => err_pos_ok(e, s.len() as int),
            Ok(_) => true,
        },
    decreases s.len() as int, 0int, s.len() - i, 0int,
{
    if st.escaped {
        lemma_sp_run_err_pos(s, st_literal(st, c), i + 1);
    } else if c == '(' {
        lemma_inv_open(s, st, i);
        lemma_sp_run_err_pos(s, st_open(st, i), i + 1);
    } else if c == ')' {
        if st.opens.len() == 0 {
        } else if st.opens.len() == 1 {
            let g = st.group;
            assert(st.opens[0] < i);
            assert(g.len() == i - st.opens[0] - 1);
            if g.len() < s.len() {
                lemma_sp_parse_err_pos(g);
            }
            match (if g.len() < s.len() {
                sp_parse(g)
            } else {
                Err(RegexpError::EmptyRegexp)
            }) {
                Ok(v) => {
                    lemma_sp_run_err_pos(s, st_close_push(st, v), i + 1);
                },
                Err(e) => {
                    assert(err_pos_ok(e, g.len() as int));
                },
            }
        } else {
            assert(st.opens.drop_last()[0] == st.opens[0]);
            lemma_sp_run_err_pos(s, st_close_nested(st), i + 1);
        }
    } else if st.opens.len() > 0 {
        assert(st.opens[0] < i);
        lemma_sp_run_err_pos(s, st_accum(st, c), i + 1);
    } else if c == '\\' {
        lemma_sp_run_err_pos(s, st_escape(st), i + 1);
    } else if c == '|' {
        if st.stack.len() == st.alts {
        } else {
            lemma_sp_run_err_pos(s, st_fold(st), i + 1);
        }
    } else if c == '?' || c == '+' || c == '*' {
        if st.stack.len() == st.alts {
        } else {
            lemma_sp_run_err_pos(s, st_wrap(st, c), i + 1);
        }
    } else {
        lemma_sp_run_err_pos(s, st_literal(st, c), i + 1);
    }
}

/// The spec state that a set of parser variables stands for.
pub open spec fn exec_state(
    stack: Seq<Regexp>,
    alts: int,
    group: Seq<char>,
    opens: Seq<usize>,
    escaped: bool,
) -> ParseState {
    ParseState { stack: view_seq(stack), alts: alts, group: group, opens: opens, escaped: escaped }
}

pub(crate) proof fn lemma_inv_open(s: Seq<char>, st: ParseState, i: int)
    requires
        st_inv(s, st, i),
        s.len() <= usize::MAX,
        0 <= i < s.len(),
        !st.escaped,
    ensures
        st_inv(s, st_open(st, i), i + 1),
{
    let st2 = st_open(st, i);
    assert(st2.opens.len() == st.opens.len() + 1);
    assert(st2.opens[st.opens.len() as int] == i as usize);
    if st.opens.len() > 0 {
        assert(st2.group.len() == st.group.len() + 1);
        assert(st2.opens[0] == st.opens[0]);
    } else {
        assert(st2.opens[0] == i as usize);
        assert(st2.group.len() == 0);
    }
    assert forall|j: int| 0 <= j < st2.opens.len() implies (#[trigger] st2.opens[j]) < i + 1 by {
        if j < st.opens.len() {
            assert(st2.opens[j] == st.opens[j]);
        }
    }
    assert(st2.stack == st.stack);
}

/// Parse a pattern string into its tree, reporting the first error with
/// its 0-indexed codepoint position in this very string: the functional
/// parser `sp_parse` says exactly which tree or which error comes back.
pub fn regexp_from_string(string: &str) -> (res: Result<Regexp, RegexpError>)
    ensures
        parse_result_view(res) == sp_parse(string@),
        res matches Ok(r) ==> view_wf(r@),
{
    let n = string.unicode_len();
    let mut chars: Vec<char> = Vec::new();
    let mut i: usize = 0;
    while i < n
        invariant
            i <= n,
            n == string@.len(),
            chars@ == string@.subrange(0, i as int),
        decreases n - i,
    {
        let c = string.get_char(i);
        chars.push(c);
        proof {
            assert(chars@ =~= string@.subrange(0, i as int + 1));
        }
        i += 1;
    }
    proof {
        assert(chars@ =~= string@);
    }
    let res = parse_chars(&chars);
    proof {
        if res is Ok {
            lemma_sp_parse_wf(chars@);
        }
    }
    res
}

fn mk_char(c: char) -> (r: Regexp)
    ensures
        r@ == RegexpView::Char(c),
{
    Regexp::Char(c)
}

fn mk_concatenation(rs: Vec<Regexp>) -> (r: Regexp)
    ensures
        r@ == RegexpView::Concatenation(view_seq(rs@)),
{
    Regexp::Concatenation(rs)
}

fn mk_alternation(rs: Vec<Regexp>) -> (r: Regexp)
    ensures
        r@ == RegexpView::Alternation(view_seq(rs@)),
{
    Regexp::Alternation(rs)
}

fn mk_quantified(c: char, prev: Regexp) -> (r: Regexp)
    ensures
        r@ == wrap_quantifier(c, prev@),
{
    if c == '?' {
        Regexp::Optional(Box::new(prev))
    } else if c == '+' {
        Regexp::Repeated(Box::new(prev))
    } else {
        Regexp::OptionalRepeated(Box::new(prev))
    }
}

fn parse_chars(chars: &Vec<char>)
 -> (res: Result<Regexp, RegexpError>)
    ensures
        parse_result_view(res) == sp_parse(chars@),
    decreases chars@.len(),
{
    let n = chars.len();
    let mut stack: Vec<Regexp> = Vec::new();
    let mut alts: usize = 0;
    let mut group: Vec<char> = Vec::new();
    let mut opens: Vec<usize> = Vec::new();
    let mut escaped = false;
    let mut i: usize = 0;
    proof {
        lemma_view_seq(stack@);
        assert(exec_state(stack@, alts as int, group@, opens@, escaped) == init_state());
    }
    while i < n
        invariant
            n == chars@.len(),
            i <= n,
            alts as int <= stack@.len(),
            st_inv(chars@, exec_state(stack@, alts as int, group@, opens@, escaped), i as int),
            sp_run(chars@, exec_state(stack@, alts as int, group@, opens@, escaped), i as int)
                == sp_parse(chars@),
        decreases n - i,
    {
        let ghost st = exec_state(stack@, alts as int, group@, opens@, escaped);
        let ghost stack0 = stack@;
        proof {
            lemma_view_seq(stack0);
        }
        let c = chars[i];
        if escaped {
            let node = mk_char(c);
            stack.push(node);
            escaped = false;
            proof {
                lemma_view_seq_push(stack0, node);
                assert(view_seq(stack@) == view_seq(stack0).push(RegexpView::Char(c)));
                assert(exec_state(stack@, alts as int, group@, opens@, escaped) == st_literal(
                    st,
                    c,
                ));
                lemma_view_seq(stack@);
                assert(sp_run(chars@, st, i as int) == sp_run(
                    chars@,
                    st_literal(st, c),
                    i as int + 1,
                ));
            }
        } else if c == '(' {
            if opens.len() > 0 {
                group.push('(');
            } else {
                group = Vec::new();
            }
            opens.push(i);
            proof {
                assert(exec_state(stack@, alts as int, group@, opens@, escaped).group =~= st_open(
                    st,
                    i as int,
                ).group);
                assert(exec_state(stack@, alts as int, group@, opens@, escaped) == st_open(
                    st,
                    i as int,
                ));
                lemma_inv_open(chars@, st, i as int);
                assert(sp_run(chars@, st, i as int) == sp_run(
                    chars@,
                    st_open(st, i as int),
                    i as int + 1,
                ));
            }
        } else if c == ')' {
            if opens.len() == 0 {
                proof {
                    assert(sp_run(chars@, st, i as int) == Err::<RegexpView, RegexpError>(
                        RegexpError::UnmatchedParenthesis(i),
                    ));
                }
                return Err(RegexpError::UnmatchedParenthesis(i));
            } else if opens.len() == 1 {
                proof {
                    assert(st.opens[0] < i);
                    assert(group@.len() == i - st.opens[0] - 1);
                    assert(group@.len() < chars@.len());
                }
                let sub = parse_chars(&group);
                match sub {
                    Ok(v) => {
                        let ghost vv = regexp_view(v);
                        stack.push(v);
                        let _ = opens.pop();
                        proof {
                            lemma_view_seq_push(stack0, v);
                            assert(opens@ =~= st.opens.drop_last());
                            assert(exec_state(stack@, alts as int, group@, opens@, escaped)
                                == st_close_push(st, vv));
                            assert(sp_run(chars@, st, i as int) == sp_run(
                                chars@,
                                st_close_push(st, vv),
                                i as int + 1,
                            ));
                        }
                    },
                    Err(e) => {
                        proof {
                            lemma_sp_parse_err_pos(group@);
                            assert(err_pos_ok(e, group@.len() as int));
                        }
                        let shift = i - group.len();
                        let out = match e {
                            RegexpError::EmptyRegexp => RegexpError::EmptyGroup(i - 1),
                            RegexpError::EmptyGroup(p) => RegexpError::EmptyGroup(p + shift),
                            RegexpError::EmptyAlternative(p) => RegexpError::EmptyAlternative(
                                p + shift,
                            ),
                            RegexpError::MisplacedOperator(p) => RegexpError::MisplacedOperator(
                                p + shift,
                            ),
                            RegexpError::UnmatchedParenthesis(
                                p,
                            ) => RegexpError::UnmatchedParenthesis(p + shift),
                        };
                        proof {
                            assert(out == translate_err(e, i as int, group@.len() as int));
                            assert(sp_run(chars@, st, i as int) == Err::<
                                RegexpView,
                                RegexpError,
                            >(out));
                        }
                        return Err(out);
                    },
                }
            } else {
                group.push(')');
                let _ = opens.pop();
                proof {
                    assert(opens@ =~= st.opens.drop_last());
                    assert(exec_state(stack@, alts as int, group@, opens@, escaped)
                        == st_close_nested(st));
                    assert(st.opens.drop_last()[0] == st.opens[0]);
                    assert(sp_run(chars@, st, i as int) == sp_run(
                        chars@,
                        st_close_nested(st),
                        i as int + 1,
                    ));
                }
            }
        } else if opens.len() > 0 {
            group.push(c);
            proof {
                assert(exec_state(stack@, alts as int, group@, opens@, escaped) == st_accum(
                    st,
                    c,
                ));
                assert(st.opens[0] < i);
                assert(sp_run(chars@, st, i as int) == sp_run(
                    chars@,
                    st_accum(st, c),
                    i as int + 1,
                ));
            }
        } else if c == '\\' {
            escaped = true;
            proof {
                assert(exec_state(stack@, alts as int, group@, opens@, escaped) == st_escape(st));
                assert(sp_run(chars@, st, i as int) == sp_run(
                    chars@,
                    st_escape(st),
                    i as int + 1,
                ));
            }
        } else if c == '|' {
            if stack.len() == alts {
                proof {
                    assert(sp_run(chars@, st, i as int) == Err::<RegexpView, RegexpError>(
                        RegexpError::EmptyAlternative(i),
                    ));
                }
                return Err(RegexpError::EmptyAlternative(i));
            }
            let mut branch = stack.split_off(alts);
            proof {
                lemma_view_seq_subrange(stack0, alts as int, stack0.len() as int);
                lemma_view_seq_subrange(stack0, 0, alts as int);
                lemma_view_seq(branch@);
            }
            if branch.len() == 1 {
                let b = match branch.pop() {
                    Some(b) => b,
                    None => {
                        return Err(RegexpError::EmptyAlternative(i));
                    },
                };
                stack.push(b);
                proof {
                    lemma_view_seq_push(stack0.subrange(0, alts as int), b);
                }
            } else {
                let ghost branchv = branch@;
                let node = mk_concatenation(branch);
                stack.push(node);
                proof {
                    lemma_view_seq_push(stack0.subrange(0, alts as int), node);
                    assert(node@ == RegexpView::Concatenation(view_seq(branchv)));
                }
            }
            alts = alts + 1;
            proof {
                assert(view_seq(stack@) =~= fold_branch(view_seq(stack0), (alts - 1) as int));
                assert(exec_state(stack@, alts as int, group@, opens@, escaped) == st_fold(st));
                lemma_view_seq(stack@);
                assert(sp_run(chars@, st, i as int) == sp_run(
                    chars@,
                    st_fold(st),
                    i as int + 1,
                ));
            }
        } else if c == '?' || c == '+' || c == '*' {
            if stack.len() == alts {
                proof {
                    assert(sp_run(chars@, st, i as int) == Err::<RegexpView, RegexpError>(
                        RegexpError::MisplacedOperator(i),
                    ));
                }
                return Err(RegexpError::MisplacedOperator(i));
            }
            let prev = match stack.pop() {
                Some(r) => r,
                None => {
                    return Err(RegexpError::MisplacedOperator(i));
                },
            };
            let w = mk_quantified(c, prev);
            stack.push(w);
            proof {
                lemma_view_seq_subrange(stack0, 0, stack0.len() - 1);
                lemma_view_seq_push(stack0.subrange(0, stack0.len() - 1), w);
                assert(regexp_view(prev) == st.stack.last());
                assert(regexp_view(w) == wrap_quantifier(c, st.stack.last()));
                assert(view_seq(stack@) =~= st.stack.update(
                    st.stack.len() - 1,
                    wrap_quantifier(c, st.stack.last()),
                ));
                assert(exec_state(stack@, alts as int, group@, opens@, escaped) == st_wrap(
                    st,
                    c,
                ));
                lemma_view_seq(stack@);
                assert(sp_run(chars@, st, i as int) == sp_run(
                    chars@,
                    st_wrap(st, c),
                    i as int + 1,
                ));
            }
        } else {
            let node = mk_char(c);
            stack.push(node);
            proof {
                lemma_view_seq_push(stack0, node);
                assert(view_seq(stack@) == view_seq(stack0).push(RegexpView::Char(c)));
                assert(exec_state(stack@, alts as int, group@, opens@, escaped) == st_literal(
                    st,
                    c,
                ));
                lemma_view_seq(stack@);
                assert(sp_run(chars@, st, i as int) == sp_run(
                    chars@,
                    st_literal(st, c),
                    i as int + 1,
                ));
            }
        }
        proof {
            lemma_view_seq(stack@);
        }
        i += 1;
    }
    let ghost st = exec_state(stack@, alts as int, group@, opens@, escaped);
    let ghost stack0 = stack@;
    proof {
        lemma_view_seq(stack0);
        assert(sp_run(chars@, st, i as int) == sp_finish(chars@, st));
    }
    if opens.len() > 0 {
        let at = opens[opens.len() - 1];
        proof {
            assert(st.opens.last() == opens@[opens@.len() - 1]);
        }
        return Err(RegexpError::UnmatchedParenthesis(at));
    }
    if stack.len() == 0 {
        return Err(RegexpError::EmptyRegexp);
    }
    if alts > 0 {
        if stack.len() == alts {
            return Err(RegexpError::EmptyAlternative(n - 1));
        }
        let mut branch = stack.split_off(alts);
        proof {
            lemma_view_seq_subrange(stack0, alts as int, stack0.len() as int);
            lemma_view_seq_subrange(stack0, 0, alts as int);
            lemma_view_seq(branch@);
        }
        if branch.len() == 1 {
            let b = match branch.pop() {
                Some(b) => b,
                None => {
                    return Err(RegexpError::EmptyAlternative(n - 1));
                },
            };
            stack.push(b);
            proof {
                lemma_view_seq_push(stack0.subrange(0, alts as int), b);
            }
        } else {
            let ghost branchv = branch@;
            let node = mk_concatenation(branch);
            stack.push(node);
            proof {
                lemma_view_seq_push(stack0.subrange(0, alts as int), node);
                assert(node@ == RegexpView::Concatenation(view_seq(branchv)));
            }
        }
        proof {
            assert(view_seq(stack@) =~= fold_branch(view_seq(stack0), alts as int));
        }
        let ghost stackv = stack@;
        let out = mk_alternation(stack);
        proof {
            assert(out@ == RegexpView::Alternation(view_seq(stackv)));
            assert(regexp_view(out) == RegexpView::Alternation(fold_branch(st.stack, st.alts)));
        }
        return Ok(out);
    }
    if stack.len() == 1 {
        let r = match stack.pop() {
            Some(r) => r,
            None => {
                return Err(RegexpError::EmptyRegexp);
            },
        };
        proof {
            assert(regexp_view(r) == st.stack[0]);
        }
        return Ok(r);
    }
    let ghost stackv = stack@;
    let out = mk_concatenation(stack);
    proof {
        assert(out@ == RegexpView::Concatenation(view_seq(stackv)));
        assert(regexp_view(out) == RegexpView::Concatenation(st.stack));
    }
    Ok(out)
}

/// The parser only builds well-formed trees: `Concatenation` and
/// `Alternation` nodes always own at least two children, each of them
/// well-formed, because a single operand or branch is used as itself.
pub proof fn lemma_sp_parse_wf(s: Seq<char>)
    ensures
        match sp_parse(s) {
            Ok(v) => view_wf(v),
            Err(_) => true,
        },
    decreases s.len() as int, 1int, 0int, 0int,
{
    lemma_sp_run_wf(s, init_state(), 0);
}

proof fn lemma_fold_branch_wf(stack: Seq<RegexpView>, alts: int)
    requires
        0 <= alts < stack.len(),
        wf_seq(stack),
    ensures
        wf_seq(fold_branch(stack, alts)),
        fold_branch(stack, alts).len() == alts + 1,
{
    lemma_wf_seq_index(stack);
    let ops = stack.subrange(alts, stack.len() as int);
    lemma_wf_seq_index(ops);
    let b = if ops.len() == 1 {
        ops[0]
    } else {
        RegexpView::Concatenation(ops)
    };
    assert(view_wf(b));
    lemma_wf_seq_index(stack.subrange(0, alts));
    lemma_wf_seq_index(stack.subrange(0, alts).push(b));
}

proof fn lemma_sp_run_wf(s: Seq<char>, st: ParseState, i: int)
    requires
        wf_seq(st.stack),
        0 <= st.alts <= st.stack.len(),
        0 <= i,
    ensures
        match sp_run(s, st, i) {
            Ok(v) => view_wf(v),
            Err(_) => true,
        },
    decreases s.len() as int, 0int, s.len() - i, 1int,
{
    if i >= s.len() {
        lemma_wf_seq_index(st.stack);
        if st.opens.len() > 0 {
        } else if st.stack.len() == 0 {
        } else if st.alts > 0 {
            if st.stack.len() == st.alts {
            } else {
                lemma_fold_branch_wf(st.stack, st.alts);
                lemma_wf_seq_index(fold_branch(st.stack, st.alts));
            }
        }
    } else {
        lemma_sp_run_wf_step(s, st, i, s[i]);
    }
}

proof fn lemma_sp_run_wf_step(s: Seq<char>, st: ParseState, i: int, c: char)
    requires
        wf_seq(st.stack),
        0 <= st.alts <= st.stack.len(),
        0 <= i < s.len(),
        c == s[i],
    ensures
        match sp_run(s, st, i) {
            Ok(v) => view_wf(v),
            Err(_) => true,
        },
    decreases s.len() as int, 0int, s.len() - i, 0int,
{
    lemma_wf_seq_index(st.stack);
    if st.escaped {
        lemma_wf_seq_index(st.stack.push(RegexpView::Char(c)));
        lemma_sp_run_wf(s, st_literal(st, c), i + 1);
    } else if c == '(' {
        lemma_sp_run_wf(s, st_open(st, i), i + 1);
    } else if c == ')' {
        if st.opens.len() == 0 {
        } else if st.opens.len() == 1 {
            let g = st.group;
            if g.len() < s.len() {
                lemma_sp_parse_wf(g);
            }
            match (if g.len() < s.len() {
                sp_parse(g)
            } else {
                Err(RegexpError::EmptyRegexp)
            }) {
                Ok(v) => {
                    lemma_wf_seq_index(st.stack.push(v));
                    lemma_sp_run_wf(s, st_close_push(st, v), i + 1);
                },
                Err(_) => {},
            }
        } else {
            lemma_sp_run_wf(s, st_close_nested(st), i + 1);
        }
    } else if st.opens.len() > 0 {
        lemma_sp_run_wf(s, st_accum(st, c), i + 1);
    } else if c == '\\' {
        lemma_sp_run_wf(s, st_escape(st), i + 1);
    } else if c == '|' {
        if st.stack.len() == st.alts {
        } else {
            lemma_fold_branch_wf(st.stack, st.alts);
            lemma_sp_run_wf(s, st_fold(st), i + 1);
        }
    } else if c == '?' || c == '+' || c == '*' {
        if st.stack.len() == st.alts {
        } else {
            let w = wrap_quantifier(c, st.stack.last());
            assert(view_wf(w));
            lemma_wf_seq_index(st.stack.update(st.stack.len() - 1, w));
            lemma_sp_run_wf(s, st_wrap(st, c), i + 1);
        }
    } else {
        lemma_wf_seq_index(st.stack.push(RegexpView::Char(c)));
        lemma_sp_run_wf(s, st_literal(st, c), i + 1);
    }
}

/// The characters that the printer re-escapes when they stand as literals.
pub open spec fn is_meta(c: char) -> bool {
    c == '?' || c == '+' || c == '*' || c == '\\' || c == '(' || c == ')'
}

/// Whether the printer must parenthesize this node when it is quantified:
/// only a literal or another quantifier may stand bare under `?`, `+`, `*`.
pub open spec fn needs_group(v: RegexpView) -> bool {
    match v {
        RegexpView::Concatenation(_) => true,
        RegexpView::Alternation(_) => true,
        _ => false,
    }
}

/// The pattern text that a tree prints as: literals re-escaped, an
/// alternation always parenthesized with `|` between its branches, a
/// quantified subtree parenthesized when it needs a group.
pub open spec fn str_of(v: RegexpView) -> Seq<char>
    decreases v, 1int, 0int,
{
    match v {
        RegexpView::Char(c) => if is_meta(c) {
            seq!['\\', c]
        } else {
            seq![c]
        },
        RegexpView::Concatenation(vs) => str_of_cat(vs),
        RegexpView::Alternation(vs) => seq!['('] + str_of_alt(vs) + seq![')'],
        RegexpView::Optional(b) => quant_text(*b) + seq!['?'],
        RegexpView::Repeated(b) => quant_text(*b) + seq!['+'],
        RegexpView::OptionalRepeated(b) => quant_text(*b) + seq!['*'],
    }
}

pub open spec fn quant_text(v: RegexpView) -> Seq<char>
    decreases v, 2int, 0int,
{
    if needs_group(v) {
        seq!['('] + str_of(v) + seq![')']
    } else {
        str_of(v)
    }
}

pub open spec fn str_of_cat(s: Seq<RegexpView>) -> Seq<char>
    decreases s, 0int, s.len(),
{
    if s.len() == 0 {
        Seq::empty()
    } else {
        str_of(s[0]) + str_of_cat(s.drop_first())
    }
}

pub open spec fn str_of_alt(s: Seq<RegexpView>) -> Seq<char>
    decreases s, 0int, s.len(),
{
    if s.len() == 0 {
        Seq::empty()
    } else if s.len() == 1 {
        str_of(s[0])
    } else {
        str_of(s[0]) + seq!['|'] + str_of_alt(s.drop_first())
    }
}

/// Relies on String::push: appends exactly the given character to the
/// string's end.
#[verifier::external_body]
fn push_char(out: &mut String, c: char)
    ensures
        final(out)@ == old(out)@.push(c),
{
    out.push(c);
}

fn push_regexp_text(out: &mut String, regexp: &Regexp)
    ensures
        final(out)@ == old(out)@ + str_of(regexp@),
    decreases regexp, 1int, 0int,
{
    match regexp {
        Regexp::Char(c) => {
            if *c == '?' || *c == '+' || *c == '*' || *c == '\\' || *c == '(' || *c == ')' {
                push_char(out, '\\');
                push_char(out, *c);
                proof {
                    assert(out@ =~= old(out)@ + seq!['\\', *c]);
                }
            } else {
                push_char(out, *c);
                proof {
                    assert(out@ =~= old(out)@ + seq![*c]);
                }
            }
        },
        Regexp::Concatenation(rs) => {
            proof {
                assert(view_seq(rs@).skip(0) =~= view_seq(rs@));
            }
            push_cat_text(out, rs, 0);
        },
        Regexp::Alternation(rs) => {
            push_char(out, '(');
            proof {
                assert(view_seq(rs@).skip(0) =~= view_seq(rs@));
            }
            push_alt_text(out, rs, 0);
            push_char(out, ')');
            proof {
                assert(out@ =~= old(out)@ + (seq!['('] + str_of_alt(view_seq(rs@)) + seq![')']));
            }
        },
        Regexp::Optional(b) => {
            push_quant_text(out, b);
            push_char(out, '?');
            proof {
                assert(out@ =~= old(out)@ + (quant_text(regexp_view(**b)) + seq!['?']));
            }
        },
        Regexp::Repeated(b) => {
            push_quant_text(out, b);
            push_char(out, '+');
            proof {
                assert(out@ =~= old(out)@ + (quant_text(regexp_view(**b)) + seq!['+']));
            }
        },
        Regexp::OptionalRepeated(b) => {
            push_quant_text(out, b);
            push_char(out, '*');
            proof {
                assert(out@ =~= old(out)@ + (quant_text(regexp_view(**b)) + seq!['*']));
            }
        },
    }
}

fn push_quant_text(out: &mut String, regexp: &Regexp)
    ensures
        final(out)@ == old(out)@ + quant_text(regexp@),
    decreases regexp, 2int, 0int,
{
    let grouped = match regexp {
        Regexp::Concatenation(_) => true,
        Regexp::Alternation(_) => true,
        _ => false,
    };
    if grouped {
        push_char(out, '(');
        push_regexp_text(out, regexp);
        push_char(out, ')');
        proof {
            assert(out@ =~= old(out)@ + (seq!['('] + str_of(regexp@) + seq![')']));
        }
    } else {
        push_regexp_text(out, regexp);
    }
}

fn push_cat_text(out: &mut String, rs: &Vec<Regexp>, j: usize)
    requires
        j <= rs@.len(),
    ensures
        final(out)@ == old(out)@ + str_of_cat(view_seq(rs@).skip(j as int)),
    decreases rs, 0int, rs@.len() - j,
{
    proof {
        lemma_view_seq(rs@);
    }
    if j == rs.len() {
        proof {
            assert(view_seq(rs@).skip(j as int) =~= Seq::<RegexpView>::empty());
            assert(out@ =~= old(out)@ + str_of_cat(view_seq(rs@).skip(j as int)));
        }
    } else {
        proof {
            assert(view_seq(rs@).skip(j as int)[0] == view_seq(rs@)[j as int]);
            assert(view_seq(rs@).skip(j as int).drop_first() =~= view_seq(rs@).skip(j as int + 1));
        }
        push_regexp_text(out, &rs[j]);
        push_cat_text(out, rs, j + 1);
        proof {
            assert(out@ =~= old(out)@ + str_of_cat(view_seq(rs@).skip(j as int)));
        }
    }
}

fn push_alt_text(out: &mut String, rs: &Vec<Regexp>, j: usize)
    requires
        j <= rs@.len(),
    ensures
        final(out)@ == old(out)@ + str_of_alt(view_seq(rs@).skip(j as int)),
    decreases rs, 0int, rs@.len() - j,
{
    proof {
        lemma_view_seq(rs@);
    }
    if j == rs.len() {
        proof {
            assert(view_seq(rs@).skip(j as int) =~= Seq::<RegexpView>::empty());
            assert(out@ =~= old(out)@ + str_of_alt(view_seq(rs@).skip(j as int)));
        }
    } else {
        proof {
            assert(view_seq(rs@).skip(j as int)[0] == view_seq(rs@)[j as int]);
            assert(view_seq(rs@).skip(j as int).drop_first() =~= view_seq(rs@).skip(j as int + 1));
        }
        push_regexp_text(out, &rs[j]);
        if j + 1 < rs.len() {
            push_char(out, '|');
            push_alt_text(out, rs, j + 1);
            proof {
                assert(out@ =~= old(out)@ + str_of_alt(view_seq(rs@).skip(j as int)));
            }
        } else {
            proof {
                assert(view_seq(rs@).skip(j as int).len() == 1);
            }
        }
    }
}

/// Turn a tree back into pattern text: the result is exactly `str_of` of
/// the tree's model.
pub fn regexp_to_string(regexp: &Regexp) -> (text: String)
    ensures
        text@ == str_of(regexp@),
{
    let mut out = String::new();
    push_regexp_text(&mut out, regexp);
    proof {
        assert(out@ =~= str_of(regexp@));
    }
    out
}

/// Round-trip for one-character patterns: printing any literal node other
/// than `'|'` yields text that parses back to that very node. (A literal
/// `'|'` prints unescaped and would parse as an empty alternation.)
pub proof fn lemma_round_trip_literal(c: char)
    requires
        c != '|',
    ensures
        sp_parse(str_of(RegexpView::Char(c))) == Ok::<RegexpView, RegexpError>(
            RegexpView::Char(c),
        ),
{
    let s = str_of(RegexpView::Char(c));
    if is_meta(c) {
        assert(s == seq!['\\', c]);
        assert(s.len() == 2 && s[0] == '\\' && s[1] == c);
        let st1 = st_escape(init_state());
        assert(sp_run(s, init_state(), 0) == sp_run(s, st1, 1));
        let st2 = st_literal(st1, c);
        assert(sp_run(s, st1, 1) == sp_run(s, st2, 2));
        assert(st2.stack == seq![RegexpView::Char(c)]);
        assert(sp_run(s, st2, 2) == sp_finish(s, st2));
        assert(sp_finish(s, st2) == Ok::<RegexpView, RegexpError>(RegexpView::Char(c)));
    } else {
        assert(s == seq![c]);
        assert(s.len() == 1 && s[0] == c);
        let st2 = st_literal(init_state(), c);
        assert(sp_run(s, init_state(), 0) == sp_run(s, st2, 1));
        assert(st2.stack == seq![RegexpView::Char(c)]);
        assert(sp_run(s, st2, 1) == sp_finish(s, st2));
        assert(sp_finish(s, st2) == Ok::<RegexpView, RegexpError>(RegexpView::Char(c)));
    }
}

} // verus!
