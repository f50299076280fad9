//! The public yes/no entry point: compile a pattern tree and run the
//! matcher over an input string.

use vstd::prelude::*;
use crate::create::Regexp;
use crate::create::RegexpView;
use crate::create::view_wf;
use crate::create::sp_parse;
use crate::thompson_nfa::compile_regexp;
use crate::thompson_nfa::thompson_vm;
use crate::thompson_nfa::compiled;
use crate::thompson_nfa::emit_len;
use crate::thompson_nfa::emit_len_seq;
use crate::thompson_nfa::sp_vm;
use crate::create::ParseState;
use crate::create::RegexpError;
use crate::create::fold_branch;
use crate::create::init_state;
use crate::create::lemma_inv_open;
use crate::create::sp_finish;
use crate::create::sp_run;
use crate::create::st_accum;
use crate::create::st_close_nested;
use crate::create::st_close_push;
use crate::create::st_escape;
use crate::create::st_fold;
use crate::create::st_inv;
use crate::create::st_literal;
use crate::create::st_open;
use crate::create::st_wrap;
use crate::create::wrap_quantifier;

verus! {

/// Whether a pattern tree matches the whole of an input, anchored at both
/// ends: the verdict of the matcher on the tree's compiled program.
pub open spec fn sp_is_match(v: RegexpView, input: Seq<char>) -> bool {
    sp_vm(compiled(v), input)
}

/// Compile the tree and decide whole-string membership of `input`.
/// Total and deterministic for every well-formed tree whose program fits
/// in memory; the verdict is a function of the tree's model alone.
pub fn is_match(regexp: &Regexp, input: &str) -> (res: bool)
    requires
        view_wf(regexp@),
        emit_len(regexp@) < usize::MAX,
    ensures
        res == sp_is_match(regexp@, input@),
{
    let insts = compile_regexp(regexp);
    let result = thompson_vm(&insts, input);
    result
}

/// Matching is a pure function of the pattern text and the input: any two
/// trees parsed from the same pattern string yield the same program and
/// the same verdict on every input, so repeated calls of
/// parse-compile-match agree.
pub proof fn lemma_match_is_function_of_pattern(
    p: Seq<char>,
    input: Seq<char>,
    r1: Regexp,
    r2: Regexp,
)
    requires
        sp_parse(p) == Ok::<RegexpView, RegexpError>(r1@),
        sp_parse(p) == Ok::<RegexpView, RegexpError>(r2@),
    ensures
        sp_is_match(r1@, input) == sp_is_match(r2@, input),
{
}

proof fn lemma_emit_len_concat_node(vs: Seq<RegexpView>)
    ensures
        emit_len(RegexpView::Concatenation(vs)) == emit_len_seq(vs),
{
}

proof fn lemma_emit_len_alternation_node(vs: Seq<RegexpView>)
    requires
        vs.len() >= 1,
    ensures
        emit_len(RegexpView::Alternation(vs)) == emit_len_seq(vs) + vs.len() - 1,
{
}

proof fn lemma_emit_len_wrap(c: char, v: RegexpView)
    ensures
        emit_len(wrap_quantifier(c, v)) <= emit_len(v) + 2,
{
}

proof fn lemma_emit_len_seq_snoc(s: Seq<RegexpView>, v: RegexpView)
    ensures
        emit_len_seq(s.push(v)) == emit_len_seq(s) + emit_len(v),
    decreases s.len(),
{
    assert(emit_len_seq(Seq::<RegexpView>::empty()) == 0);
    if s.len() == 0 {
        assert(s.push(v)[0] == v);
        assert(s.push(v).drop_first() =~= Seq::<RegexpView>::empty());
    } else {
        assert(s.push(v)[0] == s[0]);
        assert(s.push(v).drop_first() =~= s.drop_first().push(v));
        lemma_emit_len_seq_snoc(s.drop_first(), v);
    }
}

proof fn lemma_emit_len_seq_split(s: Seq<RegexpView>, k: int)
    requires
        0 <= k <= s.len(),
    ensures
        emit_len_seq(s) == emit_len_seq(s.take(k)) + emit_len_seq(s.skip(k)),
    decreases k,
{
    if k == 0 {
        assert(s.take(0) =~= Seq::<RegexpView>::empty());
        assert(s.skip(0) =~= s);
    } else {
        lemma_emit_len_seq_split(s, k - 1);
        assert(s.take(k) =~= s.take(k - 1).push(s[k - 1]));
        lemma_emit_len_seq_snoc(s.take(k - 1), s[k - 1]);
        assert(s.skip(k - 1)[0] == s[k - 1]);
        assert(s.skip(k - 1).drop_first() =~= s.skip(k));
    }
}

proof fn lemma_fold_branch_emit_len(stack: Seq<RegexpView>, k: int)
    requires
        0 <= k < stack.len(),
    ensures
        emit_len_seq(fold_branch(stack, k)) == emit_len_seq(stack),
{
    let ops = stack.subrange(k, stack.len() as int);
    assert(ops =~= stack.skip(k));
    let b = if ops.len() == 1 {
        ops[0]
    } else {
        RegexpView::Concatenation(ops)
    };
    if ops.len() == 1 {
        assert(emit_len_seq(Seq::<RegexpView>::empty()) == 0);
        assert(ops.drop_first() =~= Seq::<RegexpView>::empty());
        assert(emit_len_seq(ops) == emit_len(ops[0]));
    } else {
        lemma_emit_len_concat_node(ops);
    }
    assert(stack.subrange(0, k) =~= stack.take(k));
    lemma_emit_len_seq_snoc(stack.take(k), b);
    lemma_emit_len_seq_split(stack, k);
}

/// The room that the parser state still has: the program emitted for what
/// is on the stack, plus one joining jump for each closed branch, plus two
/// instructions for every character still sitting in an open group, never
/// exceeds two instructions per character read.
pub open spec fn size_inv(st: ParseState, i: int) -> bool {
    emit_len_seq(st.stack) + st.alts + (if st.opens.len() > 0 {
        2 * st.group.len() as int
    } else {
        0int
    }) <= 2 * i
}

/// A parsed tree's program is small: compiling what `sp_parse` accepts
/// takes at most two instructions per pattern character (plus the final
/// accepting instruction), so the program of any parsed pattern fits.
pub proof fn lemma_parsed_emit_len(s: Seq<char>)
    requires
        s.len() <= usize::MAX,
    ensures
        match sp_parse(s) {
            Ok(v) => emit_len(v) <= 2 * s.len(),
            Err(_) => true,
        },
    decreases s.len() as int, 1int, 0int, 0int,
{
    lemma_sp_run_emit_len(s, init_state(), 0);
}

proof fn lemma_sp_run_emit_len(s: Seq<char>, st: ParseState, i: int)
    requires
        st_inv(s, st, i),
        size_inv(st, i),
        s.len() <= usize::MAX,
    ensures
        match sp_run(s, st, i) {
            Ok(v) => emit_len(v) <= 2 * s.len(),
            Err(_) => true,
        },
    decreases s.len() as int, 0int, s.len() - i, 1int,
{
    if i >= s.len() {
        match sp_finish(s, st) {
            Ok(v) => {
                if st.alts > 0 {
                    lemma_fold_branch_emit_len(st.stack, st.alts);
                    lemma_emit_len_alternation_node(fold_branch(st.stack, st.alts));
                } else if st.stack.len() == 1 {
                    assert(emit_len_seq(Seq::<RegexpView>::empty()) == 0);
                    assert(st.stack.drop_first() =~= Seq::<RegexpView>::empty());
                    assert(emit_len_seq(st.stack) == emit_len(st.stack[0]));
                } else {
                    lemma_emit_len_concat_node(st.stack);
                }
            },
            Err(_) => {},
        }
    } else {
        lemma_sp_run_emit_len_step(s, st, i, s[i]);
    }
}

proof fn lemma_sp_run_emit_len_step(s: Seq<char>, st: ParseState, i: int, c: char)
    requires
        st_inv(s, st, i),
        size_inv(st, i),
        s.len() <= usize::MAX,
        0 <= i < s.len(),
        c == s[i],
    ensures
        match sp_run(s, st, i) {
            Ok(v) => emit_len(v) <= 2 * s.len(),
            Err(_) => true,
        },
    decreases s.len() as int, 0int, s.len() - i, 0int,
{
    if st.escaped {
        lemma_emit_len_seq_snoc(st.stack, RegexpView::Char(c));
        lemma_sp_run_emit_len(s, st_literal(st, c), i + 1);
    } else if c == '(' {
        lemma_inv_open(s, st, i);
        lemma_sp_run_emit_len(s, st_open(st, i), i + 1);
    } else if c == ')' {
        if st.opens.len() == 0 {
        } else if st.opens.len() == 1 {
            let g = st.group;
            assert(st.opens[0] < i);
            assert(g.len() == i - st.opens[0] - 1);
            if g.len() < s.len() {
                lemma_parsed_emit_len(g);
            }
            match (if g.len() < s.len() {
                sp_parse(g)
            } else {
                Err(RegexpError::EmptyRegexp)
            }) {
                Ok(v) => {
                    lemma_emit_len_seq_snoc(st.stack, v);
                    lemma_sp_run_emit_len(s, st_close_push(st, v), i + 1);
                },
                Err(_) => {},
            }
        } else {
            assert(st.opens.drop_last()[0] == st.opens[0]);
            lemma_sp_run_emit_len(s, st_close_nested(st), i + 1);
        }
    } else if st.opens.len() > 0 {
        assert(st.opens[0] < i);
        lemma_sp_run_emit_len(s, st_accum(st, c), i + 1);
    } else if c == '\\' {
        lemma_sp_run_emit_len(s, st_escape(st), i + 1);
    } else if c == '|' {
        if st.stack.len() == st.alts {
        } else {
            lemma_fold_branch_emit_len(st.stack, st.alts);
            lemma_sp_run_emit_len(s, st_fold(st), i + 1);
        }
    } else if c == '?' || c == '+' || c == '*' {
        if st.stack.len() == st.alts {
        } else {
            let last = st.stack.last();
            let w = wrap_quantifier(c, last);
            lemma_emit_len_wrap(c, last);
            assert(st.stack =~= st.stack.drop_last().push(last));
            assert(st.stack.update(st.stack.len() - 1, w) =~= st.stack.drop_last().push(w));
            lemma_emit_len_seq_snoc(st.stack.drop_last(), last);
            lemma_emit_len_seq_snoc(st.stack.drop_last(), w);
            lemma_sp_run_emit_len(s, st_wrap(st, c), i + 1);
        }
    } else {
        lemma_emit_len_seq_snoc(st.stack, RegexpView::Char(c));
        lemma_sp_run_emit_len(s, st_literal(st, c), i + 1);
    }
}

} // verus!
