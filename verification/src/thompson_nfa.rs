//! Thompson construction and the Pike-style breadth-first matcher.
//!
//! `compile_regexp` lowers a pattern tree into a linear program of
//! instructions whose jump targets are absolute indices; `thompson_vm` runs
//! such a program over an input string with a deduplicated thread set, so
//! its work is bounded by `len(program) * len(input)`.

use vstd::prelude::*;
use crate::create::Regexp;
use crate::create::RegexpView;
use crate::create::view_seq;
use crate::create::lemma_view_seq;
use crate::create::view_wf;
use crate::create::wf_seq;
use crate::create::lemma_wf_seq_index;

verus! {

/// One instruction of a compiled program.
/// `Char(c)` consumes one input character equal to `c`, else the thread
/// dies; `Match` accepts; `Jump` and `Split` transfer control to absolute
/// indices, where `Split`'s first target has the higher priority.
#[derive(Debug, PartialEq, Eq, Clone, Copy)]
pub enum Inst {
    Char(char),
    Match,
    Jump(usize),
    Split(usize, usize),
}

/// One live hypothesis of the matcher: an instruction pointer into the
/// program.
#[derive(Debug, PartialEq, Eq, Clone, Copy)]
pub struct Thread {
    pub pc: usize,
}

/// The number of instructions that compiling a node produces, as a closed
/// form over the node's shape: a literal takes one instruction, a sequence
/// the sum of its children, an alternation additionally one jump for every
/// branch but the last, and the quantifiers one or two control
/// instructions around their child.
pub open spec fn emit_len(v: RegexpView) -> nat
    decreases v, 1int,
{
    match v {
        RegexpView::Char(_) => 1,
        RegexpView::Concatenation(vs) => emit_len_seq(vs),
        RegexpView::Alternation(vs) => emit_len_seq(vs) + if vs.len() >= 1 {
            (vs.len() - 1) as nat
        } else {
            0
        },
        RegexpView::Optional(b) => 1 + emit_len(*b),
        RegexpView::Repeated(b) => emit_len(*b) + 1,
        RegexpView::OptionalRepeated(b) => emit_len(*b) + 2,
    }
}

pub open spec fn emit_len_seq(s: Seq<RegexpView>) -> nat
    decreases s, 0int,
{
    if s.len() == 0 {
        0
    } else {
        emit_len(s[0]) + emit_len_seq(s.drop_first())
    }
}

/// The instructions for one node, emitted at absolute index `offset`.
/// This is the Thompson construction: every jump or split target is
/// computed analytically from `offset` and the children's `emit_len`.
pub open spec fn emit(v: RegexpView, offset: int) -> Seq<Inst>
    decreases v, 1int,
{
    match v {
        RegexpView::Char(c) => seq![Inst::Char(c)],
        RegexpView::Concatenation(vs) => emit_cat(vs, offset),
        RegexpView::Alternation(vs) => emit_alt(vs, offset, offset + emit_len(v)),
        RegexpView::Optional(b) => seq![
            Inst::Split((offset + 1) as usize, (offset + 1 + emit_len(*b)) as usize),
        ] + emit(*b, offset + 1),
        RegexpView::Repeated(b) => emit(*b, offset) + seq![
            Inst::Split(offset as usize, (offset + emit_len(*b) + 1) as usize),
        ],
        RegexpView::OptionalRepeated(b) => seq![
            Inst::Split((offset + 1) as usize, (offset + emit_len(*b) + 2) as usize),
        ] + emit(*b, offset + 1) + seq![Inst::Jump(offset as usize)],
    }
}

pub open spec fn emit_cat(s: Seq<RegexpView>, offset: int) -> Seq<Inst>
    decreases s, 0int,
{
    if s.len() == 0 {
        Seq::empty()
    } else {
        emit(s[0], offset) + emit_cat(s.drop_first(), offset + emit_len(s[0]))
    }
}

pub open spec fn emit_alt(s: Seq<RegexpView>, offset: int, join: int) -> Seq<Inst>
    decreases s, 0int,
{
    if s.len() == 0 {
        Seq::empty()
    } else if s.len() == 1 {
        emit(s[0], offset)
    } else {
        emit(s[0], offset) + seq![Inst::Jump(join as usize)] + emit_alt(s.drop_first(), offset, join)
    }
}

/// The whole program for a pattern: the root's instructions followed by
/// the single trailing `Match`.
pub open spec fn compiled(v: RegexpView) -> Seq<Inst> {
    emit(v, 0).push(Inst::Match)
}

proof fn lemma_emit_len_seq_skip(s: Seq<RegexpView>, j: int)
    requires
        0 <= j < s.len(),
    ensures
        emit_len_seq(s.skip(j)) == emit_len(s[j]) + emit_len_seq(s.skip(j + 1)),
{
    assert(s.skip(j)[0] == s[j]);
    assert(s.skip(j).drop_first() =~= s.skip(j + 1));
}

fn compiled_len_seq(rs: &Vec<Regexp>, j: usize) -> (n: usize)
    requires
        j <= rs@.len(),
        emit_len_seq(view_seq(rs@).skip(j as int)) <= usize::MAX,
    ensures
        n == emit_len_seq(view_seq(rs@).skip(j as int)),
    decreases rs, rs@.len() - j,
{
    proof {
        lemma_view_seq(rs@);
    }
    if j == rs.len() {
        proof {
            assert(view_seq(rs@).skip(j as int) =~= Seq::<RegexpView>::empty());
        }
        0
    } else {
        proof {
            lemma_emit_len_seq_skip(view_seq(rs@), j as int);
        }
        let a = compiled_len(&rs[j]);
        let b = compiled_len_seq(rs, j + 1);
        a + b
    }
}

/// The emitted length of one node, computed the same way the compiler
/// computes its jump targets.
fn compiled_len(regexp: &Regexp) -> (n: usize)
    requires
        emit_len(regexp@) <= usize::MAX,
    ensures
        n == emit_len(regexp@),
    decreases regexp, 0int,
{
    match regexp {
        Regexp::Char(_) => 1,
        Regexp::Concatenation(rs) => {
            proof {
                assert(view_seq(rs@).skip(0) =~= view_seq(rs@));
            }
            compiled_len_seq(rs, 0)
        },
        Regexp::Alternation(rs) => {
            proof {
                assert(view_seq(rs@).skip(0) =~= view_seq(rs@));
                lemma_view_seq(rs@);
            }
            let base = compiled_len_seq(rs, 0);
            if rs.len() >= 1 {
                base + (rs.len() - 1)
            } else {
                base
            }
        },
        Regexp::Optional(b) => 1 + compiled_len(b),
        Regexp::Repeated(b) => compiled_len(b) + 1,
        Regexp::OptionalRepeated(b) => compiled_len(b) + 2,
    }
}

fn compile_cat(rs: &Vec<Regexp>, j: usize, offset: usize) -> (insts: Vec<Inst>)
    requires
        j <= rs@.len(),
        wf_seq(view_seq(rs@)),
        offset + emit_len_seq(view_seq(rs@).skip(j as int)) <= usize::MAX,
    ensures
        insts@ == emit_cat(view_seq(rs@).skip(j as int), offset as int),
        insts@.len() == emit_len_seq(view_seq(rs@).skip(j as int)),
    decreases rs, rs@.len() - j,
{
    proof {
        lemma_view_seq(rs@);
        lemma_wf_seq_index(view_seq(rs@));
    }
    if j == rs.len() {
        let insts: Vec<Inst> = Vec::new();
        proof {
            assert(view_seq(rs@).skip(j as int) =~= Seq::<RegexpView>::empty());
            assert(insts@ =~= emit_cat(view_seq(rs@).skip(j as int), offset as int));
        }
        insts
    } else {
        proof {
            lemma_emit_len_seq_skip(view_seq(rs@), j as int);
            assert(view_seq(rs@).skip(j as int)[0] == view_seq(rs@)[j as int]);
            assert(view_seq(rs@).skip(j as int).drop_first() =~= view_seq(rs@).skip(
                j as int + 1,
            ));
        }
        let mut insts = compile_regexp_offset(&rs[j], offset);
        let l = insts.len();
        let mut rest = compile_cat(rs, j + 1, offset + l);
        insts.append(&mut rest);
        proof {
            assert(insts@ =~= emit_cat(view_seq(rs@).skip(j as int), offset as int));
        }
        insts
    }
}

fn compile_alt(rs: &Vec<Regexp>, j: usize, offset: usize, join: usize) -> (insts: Vec<Inst>)
    requires
        j < rs@.len(),
        wf_seq(view_seq(rs@)),
        offset + emit_len_seq(view_seq(rs@).skip(j as int)) + (rs@.len() - 1 - j) <= usize::MAX,
    ensures
        insts@ == emit_alt(view_seq(rs@).skip(j as int), offset as int, join as int),
        insts@.len() == emit_len_seq(view_seq(rs@).skip(j as int)) + (rs@.len() - 1 - j),
    decreases rs, rs@.len() - j,
{
    proof {
        lemma_view_seq(rs@);
        lemma_wf_seq_index(view_seq(rs@));
        lemma_emit_len_seq_skip(view_seq(rs@), j as int);
        assert(view_seq(rs@).skip(j as int)[0] == view_seq(rs@)[j as int]);
        assert(view_seq(rs@).skip(j as int).drop_first() =~= view_seq(rs@).skip(j as int + 1));
    }
    let mut insts = compile_regexp_offset(&rs[j], offset);
    if j == rs.len() - 1 {
        proof {
            assert(view_seq(rs@).skip(j as int).len() == 1);
        }
        insts
    } else {
        insts.push(Inst::Jump(join));
        let mut rest = compile_alt(rs, j + 1, offset, join);
        insts.append(&mut rest);
        proof {
            assert(insts@ =~= emit_alt(view_seq(rs@).skip(j as int), offset as int, join as int));
        }
        insts
    }
}

fn compile_regexp_offset(regexp: &Regexp, offset: usize) -> (insts: Vec<Inst>)
    requires
        view_wf(regexp@),
        offset + emit_len(regexp@) <= usize::MAX,
    ensures
        insts@ == emit(regexp@, offset as int),
        insts@.len() == emit_len(regexp@),
    decreases regexp, 1int,
{
    match regexp {
        Regexp::Char(c) => {
            let mut insts: Vec<Inst> = Vec::new();
            insts.push(Inst::Char(*c));
            proof {
                assert(insts@ =~= emit(regexp@, offset as int));
            }
            insts
        },
        Regexp::Concatenation(rs) => {
            proof {
                assert(view_seq(rs@).skip(0) =~= view_seq(rs@));
            }
            compile_cat(rs, 0, offset)
        },
        Regexp::Alternation(rs) => {
            proof {
                assert(view_seq(rs@).skip(0) =~= view_seq(rs@));
                lemma_view_seq(rs@);
            }
            let total = compiled_len(regexp);
            let join = offset + total;
            compile_alt(rs, 0, offset, join)
        },
        Regexp::Optional(b) => {
            let inner_len = compiled_len(b);
            let mut insts: Vec<Inst> = Vec::new();
            insts.push(Inst::Split(offset + 1, offset + 1 + inner_len));
            let mut inner = compile_regexp_offset(b, offset + 1);
            insts.append(&mut inner);
            proof {
                assert(insts@ =~= emit(regexp@, offset as int));
            }
            insts
        },
        Regexp::Repeated(b) => {
            let mut insts = compile_regexp_offset(b, offset);
            let l = insts.len();
            insts.push(Inst::Split(offset, offset + l + 1));
            proof {
                assert(insts@ =~= emit(regexp@, offset as int));
            }
            insts
        },
        Regexp::OptionalRepeated(b) => {
            let inner_len = compiled_len(b);
            let mut insts: Vec<Inst> = Vec::new();
            insts.push(Inst::Split(offset + 1, offset + inner_len + 2));
            let mut inner = compile_regexp_offset(b, offset + 1);
            insts.append(&mut inner);
            insts.push(Inst::Jump(offset));
            proof {
                assert(insts@ =~= emit(regexp@, offset as int));
            }
            insts
        },
    }
}

/// Compile a well-formed pattern tree into its program: the Thompson
/// construction for the tree followed by the single trailing `Match`.
/// Total for every well-formed tree whose program fits in memory.
pub fn compile_regexp(regexp: &Regexp) -> (insts: Vec<Inst>)
    requires
        view_wf(regexp@),
        emit_len(regexp@) < usize::MAX,
    ensures
        insts@ == compiled(regexp@),
{
    let mut insts = compile_regexp_offset(regexp, 0);
    insts.push(Inst::Match);
    insts
}

/// The instruction pointers of a vector of threads, in priority order.
pub open spec fn pcs(threads: Seq<Thread>) -> Seq<usize> {
    threads.map_values(|t: Thread| t.pc)
}

/// A deduplicated thread set over a program: no instruction pointer occurs
/// twice and every pointer is a valid index. This is what bounds the
/// matcher's work.
pub open spec fn valid_set(prog: Seq<Inst>, set: Seq<usize>) -> bool {
    &&& set.no_duplicates()
    &&& forall|j: int| 0 <= j < set.len() ==> (#[trigger] set[j]) < prog.len()
}

/// The epsilon-closure step: add every pending pointer to the set, and for
/// a `Jump` or `Split` at an added pointer keep following the targets, so
/// that control-transfer instructions never remain a thread's resting
/// point. A pointer already present, or out of range, is skipped; that
/// deduplication is what keeps the set within `prog.len()` entries.
pub open spec fn sp_add(prog: Seq<Inst>, set: Seq<usize>, pending: Seq<usize>) -> Seq<usize>
    decreases prog.len() - set.len(), pending.len(),
{
    if pending.len() == 0 {
        set
    } else {
        let pc = pending[0];
        let rest = pending.drop_first();
        if pc >= prog.len() || set.contains(pc) {
            sp_add(prog, set, rest)
        } else if set.len() >= prog.len() {
            // termination bound; never reached while the set is deduplicated
            sp_add(prog, set, rest)
        } else {
            let set1 = set.push(pc);
            match prog[pc as int] {
                Inst::Jump(t) => sp_add(prog, set1, seq![t] + rest),
                Inst::Split(a, b) => sp_add(prog, set1, seq![a, b] + rest),
                _ => sp_add(prog, set1, rest),
            }
        }
    }
}

/// One input character: every current thread resting on a matching `Char`
/// instruction advances past it, and the advanced pointer is
/// closure-added to the accumulator, in priority order.
pub open spec fn sp_step(prog: Seq<Inst>, cur: Seq<usize>, c: char, acc: Seq<usize>) -> Seq<usize>
    decreases cur.len(),
{
    if cur.len() == 0 {
        acc
    } else {
        let p = cur[0];
        let acc2 = if p < prog.len() {
            match prog[p as int] {
                Inst::Char(x) => if x == c {
                    sp_add(prog, acc, seq![(p + 1) as usize])
                } else {
                    acc
                },
                _ => acc,
            }
        } else {
            acc
        };
        sp_step(prog, cur.drop_first(), c, acc2)
    }
}

/// Run the thread set over the remaining input. The match succeeds exactly
/// when, after the whole input is consumed, some surviving thread rests on
/// `Match`: matching is anchored at both ends of the input.
pub open spec fn sp_vm_loop(prog: Seq<Inst>, cur: Seq<usize>, input: Seq<char>) -> bool
    decreases input.len(),
{
    if input.len() == 0 {
        exists|j: int|
            0 <= j < cur.len() && cur[j] < prog.len() && prog[cur[j] as int] is Match
    } else {
        sp_vm_loop(prog, sp_step(prog, cur, input[0], Seq::empty()), input.drop_first())
    }
}

/// Whether the program accepts the whole input, starting from the
/// epsilon-closure of instruction pointer 0.
pub open spec fn sp_vm(prog: Seq<Inst>, input: Seq<char>) -> bool {
    sp_vm_loop(prog, sp_add(prog, Seq::empty(), seq![0usize]), input)
}

/// Bounded work: a deduplicated thread set never holds more entries than
/// the program has instructions, whatever the pattern's shape.
pub proof fn lemma_thread_set_bounded(prog: Seq<Inst>, set: Seq<usize>)
    requires
        valid_set(prog, set),
    ensures
        set.len() <= prog.len(),
{
    let si = set.map_values(|p: usize| p as int);
    assert(si.no_duplicates());
    si.unique_seq_to_set();
    vstd::set_lib::lemma_int_range(0, prog.len() as int);
    assert(si.to_set().subset_of(vstd::set_lib::set_int_range(0, prog.len() as int))) by {
        assert forall|e: int| si.to_set().contains(e) implies vstd::set_lib::set_int_range(
            0,
            prog.len() as int,
        ).contains(e) by {
            let k = choose|k: int| 0 <= k < si.len() && si[k] == e;
            assert(set[k] < prog.len());
        }
    }
    vstd::set_lib::lemma_len_subset(
        si.to_set(),
        vstd::set_lib::set_int_range(0, prog.len() as int),
    );
}

/// The closure step keeps a thread set deduplicated and in range, never
/// shrinks it, and therefore keeps it bounded by the program's length.
pub proof fn lemma_sp_add_valid(prog: Seq<Inst>, set: Seq<usize>, pending: Seq<usize>)
    requires
        valid_set(prog, set),
    ensures
        valid_set(prog, sp_add(prog, set, pending)),
        sp_add(prog, set, pending).len() >= set.len(),
        sp_add(prog, set, pending).len() <= prog.len(),
    decreases prog.len() - set.len(), pending.len(),
{
    lemma_thread_set_bounded(prog, set);
    if pending.len() == 0 {
    } else {
        let pc = pending[0];
        let rest = pending.drop_first();
        if pc >= prog.len() || set.contains(pc) {
            lemma_sp_add_valid(prog, set, rest);
        } else if set.len() >= prog.len() {
            lemma_sp_add_valid(prog, set, rest);
        } else {
            let set1 = set.push(pc);
            assert(forall|i: int| 0 <= i < set.len() ==> set[i] != pc);
            assert(set1.no_duplicates());
            assert(valid_set(prog, set1));
            match prog[pc as int] {
                Inst::Jump(t) => {
                    lemma_sp_add_valid(prog, set1, seq![t] + rest);
                },
                Inst::Split(a, b) => {
                    lemma_sp_add_valid(prog, set1, seq![a, b] + rest);
                },
                _ => {
                    lemma_sp_add_valid(prog, set1, rest);
                },
            }
        }
    }
}

/// Closing over a concatenation of two pending lists is closing over the
/// first and then the second.
proof fn lemma_sp_add_concat(prog: Seq<Inst>, set: Seq<usize>, pending_a: Seq<usize>, pending_b: Seq<usize>)
    requires
        valid_set(prog, set),
    ensures
        sp_add(prog, set, pending_a + pending_b) == sp_add(prog, sp_add(prog, set, pending_a), pending_b),
    decreases prog.len() - set.len(), pending_a.len(),
{
    if pending_a.len() == 0 {
        assert(pending_a + pending_b =~= pending_b);
    } else {
        let pc = pending_a[0];
        let rest = pending_a.drop_first();
        assert((pending_a + pending_b)[0] == pc);
        assert((pending_a + pending_b).drop_first() =~= rest + pending_b);
        if pc >= prog.len() || set.contains(pc) {
            lemma_sp_add_concat(prog, set, rest, pending_b);
        } else if set.len() >= prog.len() {
            lemma_sp_add_concat(prog, set, rest, pending_b);
        } else {
            let set1 = set.push(pc);
            assert(forall|i: int| 0 <= i < set.len() ==> set[i] != pc);
            assert(valid_set(prog, set1));
            match prog[pc as int] {
                Inst::Jump(t) => {
                    assert((seq![t] + rest) + pending_b =~= seq![t] + (rest + pending_b));
                    lemma_sp_add_concat(prog, set1, seq![t] + rest, pending_b);
                },
                Inst::Split(a, b) => {
                    assert((seq![a, b] + rest) + pending_b =~= seq![a, b] + (rest + pending_b));
                    lemma_sp_add_concat(prog, set1, seq![a, b] + rest, pending_b);
                },
                _ => {
                    lemma_sp_add_concat(prog, set1, rest, pending_b);
                },
            }
        }
    }
}

/// Once no thread survives, no suffix of the input can be matched.
proof fn lemma_sp_vm_loop_empty(prog: Seq<Inst>, input: Seq<char>)
    ensures
        !sp_vm_loop(prog, Seq::empty(), input),
    decreases input.len(),
{
    if input.len() > 0 {
        lemma_sp_vm_loop_empty(prog, input.drop_first());
    }
}

/// Add the epsilon-closure of `pc` to the thread set, deduplicating by
/// pointer value.
fn add_thread(insts: &Vec<Inst>, set: &mut Vec<Thread>, pc: usize)
    requires
        valid_set(insts@, pcs(old(set)@)),
    ensures
        pcs(final(set)@) == sp_add(insts@, pcs(old(set)@), seq![pc]),
        valid_set(insts@, pcs(final(set)@)),
        final(set)@.len() >= old(set)@.len(),
    decreases insts@.len() - old(set)@.len(),
{
    proof {
        assert(seq![pc].drop_first() =~= Seq::<usize>::empty());
    }
    let mut contains = false;
    let n = set.len();
    let mut k: usize = 0;
    while k < n
        invariant
            k <= n,
            n == set@.len(),
            *set == *old(set),
            contains <==> (exists|i: int| 0 <= i < k && pcs(set@)[i] == pc),
        decreases n - k,
    {
        proof {
            assert(pcs(set@)[k as int] == set@[k as int].pc);
        }
        if set[k].pc == pc {
            contains = true;
        }
        k += 1;
    }
    proof {
        assert(contains <==> pcs(set@).contains(pc));
        assert(sp_add(insts@, pcs(set@), Seq::<usize>::empty()) == pcs(set@));
    }
    if pc >= insts.len() || contains {
        proof {
            assert(sp_add(insts@, pcs(set@), seq![pc]) == pcs(set@));
        }
        return ;
    }
    if set.len() >= insts.len() {
        // termination bound mirrored from `sp_add`; a deduplicated set over
        // this program can never reach it with a fresh in-range pointer
        proof {
            assert(sp_add(insts@, pcs(set@), seq![pc]) == pcs(set@));
        }
        return ;
    }
    let ghost set0 = pcs(set@);
    set.push(Thread { pc });
    proof {
        assert(pcs(set@) =~= set0.push(pc));
        assert(forall|i: int| 0 <= i < set0.len() ==> set0[i] != pc);
        assert(valid_set(insts@, pcs(set@)));
    }
    let inst = insts[pc];
    match inst {
        Inst::Jump(t) => {
            proof {
                assert(seq![t] + seq![pc].drop_first() =~= seq![t]);
            }
            add_thread(insts, set, t);
            proof {
                assert(sp_add(insts@, set0, seq![pc]) == sp_add(insts@, set0.push(pc), seq![t]));
            }
        },
        Inst::Split(a, b) => {
            proof {
                assert(seq![a, b] + seq![pc].drop_first() =~= seq![a, b]);
                assert(seq![a] + seq![b] =~= seq![a, b]);
                lemma_sp_add_concat(insts@, set0.push(pc), seq![a], seq![b]);
                assert(sp_add(insts@, set0, seq![pc]) == sp_add(
                    insts@,
                    sp_add(insts@, set0.push(pc), seq![a]),
                    seq![b],
                ));
            }
            add_thread(insts, set, a);
            proof {
                lemma_thread_set_bounded(insts@, pcs(set@));
                assert(set@.len() > old(set)@.len());
            }
            add_thread(insts, set, b);
        },
        _ => {
            proof {
                assert(sp_add(insts@, set0.push(pc), Seq::<usize>::empty()) == set0.push(pc));
                assert(sp_add(insts@, set0, seq![pc]) == set0.push(pc));
            }
        },
    }
}

/// Run a compiled program over the whole input, breadth first with a
/// deduplicated thread set ("Pike's VM"): `true` exactly when the program
/// accepts the input as a whole, anchored at both ends. Total over any
/// program and any input; out-of-range targets simply kill their thread.
pub fn thompson_vm(insts: &Vec<Inst>, input: &str) -> (res: bool)
    ensures
        res == sp_vm(insts@, input@),
{
    let mut cur: Vec<Thread> = Vec::new();
    proof {
        assert(pcs(cur@) =~= Seq::<usize>::empty());
    }
    add_thread(insts, &mut cur, 0);
    let n = input.unicode_len();
    let mut i: usize = 0;
    proof {
        assert(input@.skip(0) =~= input@);
    }
    while i < n
        invariant
            i <= n,
            n == input@.len(),
            valid_set(insts@, pcs(cur@)),
            sp_vm_loop(insts@, pcs(cur@), input@.skip(i as int)) == sp_vm(insts@, input@),
        decreases n - i,
    {
        let c = input.get_char(i);
        let mut next: Vec<Thread> = Vec::new();
        proof {
            assert(pcs(next@) =~= Seq::<usize>::empty());
            assert(pcs(cur@).skip(0) =~= pcs(cur@));
        }
        let m = cur.len();
        let mut j: usize = 0;
        while j < m
            invariant
                j <= m,
                m == cur@.len(),
                valid_set(insts@, pcs(cur@)),
                valid_set(insts@, pcs(next@)),
                sp_step(insts@, pcs(cur@).skip(j as int), c, pcs(next@)) == sp_step(
                    insts@,
                    pcs(cur@),
                    c,
                    Seq::empty(),
                ),
            decreases m - j,
        {
            let t = cur[j];
            proof {
                assert(pcs(cur@)[j as int] == t.pc);
                assert(t.pc < insts@.len());
                assert(pcs(cur@).skip(j as int)[0] == t.pc);
                assert(pcs(cur@).skip(j as int).drop_first() =~= pcs(cur@).skip(j as int + 1));
            }
            let il = insts.len();
            match insts[t.pc] {
                Inst::Char(x) => {
                    if x == c {
                        proof {
                            assert(t.pc < il);
                        }
                        add_thread(insts, &mut next, t.pc + 1);
                    }
                },
                _ => {},
            }
            j += 1;
        }
        proof {
            assert(pcs(cur@).skip(m as int) =~= Seq::<usize>::empty());
            assert(pcs(next@) == sp_step(insts@, pcs(cur@), c, Seq::empty()));
            assert(input@.skip(i as int).len() > 0);
            assert(input@.skip(i as int)[0] == input@[i as int]);
            assert(input@.skip(i as int).drop_first() =~= input@.skip(i as int + 1));
            assert(sp_vm_loop(insts@, pcs(next@), input@.skip(i as int + 1)) == sp_vm(
                insts@,
                input@,
            ));
        }
        cur = next;
        if cur.len() == 0 {
            proof {
                assert(pcs(cur@) =~= Seq::<usize>::empty());
                lemma_sp_vm_loop_empty(insts@, input@.skip(i as int + 1));
            }
            return false;
        }
        i += 1;
    }
    proof {
        assert(input@.skip(n as int) =~= Seq::<char>::empty());
    }
    let m = cur.len();
    let mut j: usize = 0;
    let mut found = false;
    while j < m
        invariant
            j <= m,
            m == cur@.len(),
            valid_set(insts@, pcs(cur@)),
            found <==> (exists|jj: int|
                0 <= jj < j && pcs(cur@)[jj] < insts@.len() && insts@[pcs(
                    cur@,
                )[jj] as int] is Match),
        decreases m - j,
    {
        let t = cur[j];
        proof {
            assert(pcs(cur@)[j as int] == t.pc);
            assert(t.pc < insts@.len());
        }
        match insts[t.pc] {
            Inst::Match => {
                found = true;
            },
            _ => {},
        }
        j += 1;
    }
    found
}

/// Whether one instruction's control-transfer targets all lie in
/// `[lo, hi]`.
pub open spec fn target_ok(inst: Inst, lo: int, hi: int) -> bool {
    match inst {
        Inst::Jump(t) => lo <= t <= hi,
        Inst::Split(a, b) => lo <= a <= hi && lo <= b <= hi,
        _ => true,
    }
}

pub open spec fn targets_in(insts: Seq<Inst>, lo: int, hi: int) -> bool {
    forall|k: int| 0 <= k < insts.len() ==> target_ok(#[trigger] insts[k], lo, hi)
}

pub open spec fn no_accept(insts: Seq<Inst>) -> bool {
    forall|k: int| 0 <= k < insts.len() ==> !((#[trigger] insts[k]) is Match)
}

proof fn lemma_concat_props(a: Seq<Inst>, b: Seq<Inst>, lo: int, hi: int)
    requires
        targets_in(a, lo, hi),
        targets_in(b, lo, hi),
        no_accept(a),
        no_accept(b),
    ensures
        targets_in(a + b, lo, hi),
        no_accept(a + b),
{
    assert forall|k: int| 0 <= k < (a + b).len() implies target_ok(#[trigger] (a + b)[k], lo, hi)
        && !((a + b)[k] is Match) by {
        if k < a.len() {
            assert((a + b)[k] == a[k]);
        } else {
            assert((a + b)[k] == b[k - a.len()]);
        }
    }
}

proof fn lemma_targets_widen(insts: Seq<Inst>, lo: int, hi: int, lo2: int, hi2: int)
    requires
        targets_in(insts, lo, hi),
        lo2 <= lo,
        hi <= hi2,
    ensures
        targets_in(insts, lo2, hi2),
{
}

proof fn lemma_emit_props(v: RegexpView, offset: int)
    requires
        0 <= offset,
        offset + emit_len(v) <= usize::MAX,
    ensures
        emit(v, offset).len() == emit_len(v),
        targets_in(emit(v, offset), offset, offset + emit_len(v)),
        no_accept(emit(v, offset)),
    decreases v, 1int,
{
    match v {
        RegexpView::Char(c) => {
            assert(emit(v, offset) == seq![Inst::Char(c)]);
            assert(forall|k: int|
                0 <= k < 1 ==> #[trigger] seq![Inst::Char(c)][k] == Inst::Char(c));
        },
        RegexpView::Concatenation(vs) => {
            lemma_emit_cat_props(vs, offset);
        },
        RegexpView::Alternation(vs) => {
            lemma_emit_alt_props(vs, offset, offset + emit_len(v));
            if vs.len() == 0 {
                assert(emit_len(v) == 0);
            } else {
                assert(emit_len(v) == emit_len_seq(vs) + vs.len() - 1);
            }
        },
        RegexpView::Optional(b) => {
            lemma_emit_props(*b, offset + 1);
            let split = seq![
                Inst::Split((offset + 1) as usize, (offset + 1 + emit_len(*b)) as usize),
            ];
            assert(forall|k: int| 0 <= k < 1 ==> #[trigger] split[k] == split[0]);
            assert(targets_in(split, offset, offset + emit_len(v)));
            assert(no_accept(split));
            lemma_targets_widen(
                emit(*b, offset + 1),
                offset + 1,
                offset + 1 + emit_len(*b),
                offset,
                offset + emit_len(v),
            );
            lemma_concat_props(split, emit(*b, offset + 1), offset, offset + emit_len(v));
        },
        RegexpView::Repeated(b) => {
            lemma_emit_props(*b, offset);
            let split = seq![
                Inst::Split(offset as usize, (offset + emit_len(*b) + 1) as usize),
            ];
            assert(forall|k: int| 0 <= k < 1 ==> #[trigger] split[k] == split[0]);
            assert(targets_in(split, offset, offset + emit_len(v)));
            assert(no_accept(split));
            lemma_targets_widen(
                emit(*b, offset),
                offset,
                offset + emit_len(*b),
                offset,
                offset + emit_len(v),
            );
            lemma_concat_props(emit(*b, offset), split, offset, offset + emit_len(v));
        },
        RegexpView::OptionalRepeated(b) => {
            lemma_emit_props(*b, offset + 1);
            let split = seq![
                Inst::Split((offset + 1) as usize, (offset + emit_len(*b) + 2) as usize),
            ];
            let back = seq![Inst::Jump(offset as usize)];
            assert(forall|k: int| 0 <= k < 1 ==> #[trigger] split[k] == split[0]);
            assert(forall|k: int| 0 <= k < 1 ==> #[trigger] back[k] == back[0]);
            assert(targets_in(split, offset, offset + emit_len(v)));
            assert(targets_in(back, offset, offset + emit_len(v)));
            lemma_targets_widen(
                emit(*b, offset + 1),
                offset + 1,
                offset + 1 + emit_len(*b),
                offset,
                offset + emit_len(v),
            );
            lemma_concat_props(split, emit(*b, offset + 1), offset, offset + emit_len(v));
            lemma_concat_props(
                split + emit(*b, offset + 1),
                back,
                offset,
                offset + emit_len(v),
            );
        },
    }
}

proof fn lemma_emit_cat_props(s: Seq<RegexpView>, offset: int)
    requires
        0 <= offset,
        offset + emit_len_seq(s) <= usize::MAX,
    ensures
        emit_cat(s, offset).len() == emit_len_seq(s),
        targets_in(emit_cat(s, offset), offset, offset + emit_len_seq(s)),
        no_accept(emit_cat(s, offset)),
    decreases s, 0int,
{
    if s.len() == 0 {
    } else {
        lemma_emit_props(s[0], offset);
        lemma_emit_cat_props(s.drop_first(), offset + emit_len(s[0]));
        lemma_targets_widen(
            emit(s[0], offset),
            offset,
            offset + emit_len(s[0]),
            offset,
            offset + emit_len_seq(s),
        );
        lemma_targets_widen(
            emit_cat(s.drop_first(), offset + emit_len(s[0])),
            offset + emit_len(s[0]),
            offset + emit_len(s[0]) + emit_len_seq(s.drop_first()),
            offset,
            offset + emit_len_seq(s),
        );
        lemma_concat_props(
            emit(s[0], offset),
            emit_cat(s.drop_first(), offset + emit_len(s[0])),
            offset,
            offset + emit_len_seq(s),
        );
    }
}

proof fn lemma_emit_alt_props(s: Seq<RegexpView>, offset: int, join: int)
    requires
        0 <= offset,
        offset + emit_len_seq(s) <= join <= usize::MAX,
    ensures
        emit_alt(s, offset, join).len() == if s.len() == 0 {
            0int
        } else {
            emit_len_seq(s) + s.len() - 1
        },
        targets_in(emit_alt(s, offset, join), offset, join),
        no_accept(emit_alt(s, offset, join)),
    decreases s, 0int,
{
    if s.len() == 0 {
    } else if s.len() == 1 {
        lemma_emit_props(s[0], offset);
        lemma_targets_widen(emit(s[0], offset), offset, offset + emit_len(s[0]), offset, join);
    } else {
        lemma_emit_props(s[0], offset);
        lemma_emit_alt_props(s.drop_first(), offset, join);
        let jmp = seq![Inst::Jump(join as usize)];
        assert(forall|k: int| 0 <= k < 1 ==> #[trigger] jmp[k] == jmp[0]);
        assert(targets_in(jmp, offset, join));
        lemma_targets_widen(emit(s[0], offset), offset, offset + emit_len(s[0]), offset, join);
        lemma_concat_props(emit(s[0], offset), jmp, offset, join);
        lemma_concat_props(
            emit(s[0], offset) + jmp,
            emit_alt(s.drop_first(), offset, join),
            offset,
            join,
        );
    }
}

/// A compiled program is valid in the sense of the data model: it is one
/// instruction longer than the construction's closed-form length, its
/// single `Match` stands last, and every jump or split target lies within
/// the program, so no instruction jumps past the final `Match`.
pub proof fn lemma_compiled_program_valid(v: RegexpView)
    requires
        emit_len(v) < usize::MAX,
    ensures
        compiled(v).len() == emit_len(v) + 1,
        compiled(v).last() == Inst::Match,
        forall|k: int| 0 <= k < emit_len(v) ==> !((#[trigger] compiled(v)[k]) is Match),
        targets_in(compiled(v), 0, emit_len(v) as int),
{
    lemma_emit_props(v, 0);
    assert forall|k: int| 0 <= k < compiled(v).len() implies target_ok(
        #[trigger] compiled(v)[k],
        0,
        emit_len(v) as int,
    ) by {
        if k < emit_len(v) {
            assert(compiled(v)[k] == emit(v, 0)[k]);
        } else {
            assert(compiled(v)[k] == Inst::Match);
        }
    }
    assert forall|k: int| 0 <= k < emit_len(v) implies !((#[trigger] compiled(v)[k]) is Match) by {
        assert(compiled(v)[k] == emit(v, 0)[k]);
    }
}

} // verus!
