//! x86-64 assembly (AT&T syntax) for stack-machine code. The program keeps
//! the machine's stack on the hardware stack, prints the final value with
//! `printf` and exits with status 1 on a division by zero.
use vstd::prelude::*;

use crate::compiler::Instr;
use crate::text::{all_digits, digits_value, int_text, lemma_nat_text_digits, nat_text, push_int};

verus! {

pub open spec fn prologue_lines() -> Seq<Seq<char>> {
    seq![
        "    .section .text"@,
        "    .globl main"@,
        "main:"@,
        "    pushq %rbp"@,
        "    movq  %rsp, %rbp"@,
    ]
}

pub open spec fn epilogue_lines() -> Seq<Seq<char>> {
    seq![
        "    popq  %rsi"@,
        "    leaq  fmt(%rip), %rdi"@,
        "    xorl  %eax, %eax"@,
        "    call  printf"@,
        "    xorl  %eax, %eax"@,
        "    popq  %rbp"@,
        "    ret"@,
        ".Ldiv_zero_error:"@,
        "    leaq  errmsg(%rip), %rdi"@,
        "    call  puts"@,
        "    movl  $1, %edi"@,
        "    call  exit"@,
        "    .section .rodata"@,
        "fmt:"@,
        "    .string \"%d\\n\""@,
        "errmsg:"@,
        "    .string \"division by zero\""@,
        "    .section .note.GNU-stack,\"\",@progbits"@,
    ]
}

/// The assembly lines for one instruction.
pub open spec fn instr_lines(ins: Instr) -> Seq<Seq<char>> {
    match ins {
        Instr::Push(n) => seq!["    pushq $"@ + int_text(n as int)],
        Instr::Add => seq![
            "    popq  %rax"@,
            "    popq  %rbx"@,
            "    addq  %rbx, %rax"@,
            "    pushq %rax"@,
        ],
        Instr::Sub => seq![
            "    popq  %rax"@,
            "    popq  %rbx"@,
            "    subq  %rax, %rbx"@,
            "    pushq %rbx"@,
        ],
        Instr::Mul => seq![
            "    popq  %rax"@,
            "    popq  %rbx"@,
            "    imulq %rbx, %rax"@,
            "    pushq %rax"@,
        ],
        Instr::Div => seq![
            "    popq  %rcx"@,
            "    cmpq  $0, %rcx"@,
            "    je    .Ldiv_zero_error"@,
            "    popq  %rax"@,
            "    cqto"@,
            "    idivq %rcx"@,
            "    pushq %rax"@,
        ],
        Instr::Neg => seq!["    popq  %rax"@, "    negq  %rax"@, "    pushq %rax"@],
    }
}

/// The lines of all instructions of `prog`, in order.
pub open spec fn program_lines(prog: Seq<Instr>) -> Seq<Seq<char>>
    decreases prog.len(),
{
    if prog.len() == 0 {
        seq![]
    } else {
        program_lines(prog.drop_last()) + instr_lines(prog.last())
    }
}

/// The lines, each followed by a line feed.
pub open spec fn text_of_lines(lines: Seq<Seq<char>>) -> Seq<char>
    decreases lines.len(),
{
    if lines.len() == 0 {
        seq![]
    } else {
        text_of_lines(lines.drop_last()) + lines.last() + seq!['\n']
    }
}

/// The whole assembly file for `prog`.
pub open spec fn assembly(prog: Seq<Instr>) -> Seq<char> {
    text_of_lines(prologue_lines() + program_lines(prog) + epilogue_lines())
}

/// Text of consecutive groups of lines is the texts of the groups in turn.
pub proof fn lemma_text_of_lines_append(a: Seq<Seq<char>>, b: Seq<Seq<char>>)
    ensures
        text_of_lines(a + b) == text_of_lines(a) + text_of_lines(b),
    decreases b.len(),
{
    if b.len() == 0 {
        assert(a + b =~= a);
        assert(text_of_lines(a) + text_of_lines(b) =~= text_of_lines(a));
    } else {
        lemma_text_of_lines_append(a, b.drop_last());
        assert((a + b).drop_last() =~= a + b.drop_last());
        assert(text_of_lines(a + b) =~= text_of_lines(a) + text_of_lines(b));
    }
}

proof fn lemma_program_lines_append(p: Seq<Instr>, q: Seq<Instr>)
    ensures
        program_lines(p + q) == program_lines(p) + program_lines(q),
    decreases q.len(),
{
    if q.len() == 0 {
        assert(p + q =~= p);
        assert(program_lines(p) + program_lines(q) =~= program_lines(p));
    } else {
        lemma_program_lines_append(p, q.drop_last());
        assert((p + q).drop_last() =~= p + q.drop_last());
        assert((p + q).last() == q.last());
        assert(program_lines(p + q) =~= program_lines(p) + program_lines(q));
    }
}

/// The assembly for the program `p` followed by `q` is the prologue, the
/// code for `p`, the code for `q`, then the epilogue: each instruction's
/// lines appear once, in program order, between the prologue and the
/// epilogue.
pub proof fn lemma_assembly_layout(p: Seq<Instr>, q: Seq<Instr>)
    ensures
        assembly(p + q) == text_of_lines(prologue_lines()) + text_of_lines(program_lines(p))
            + text_of_lines(program_lines(q)) + text_of_lines(epilogue_lines()),
{
    lemma_program_lines_append(p, q);
    let pro = prologue_lines();
    let lp = program_lines(p);
    let lq = program_lines(q);
    let epi = epilogue_lines();
    assert(pro + (lp + lq) + epi =~= pro + lp + lq + epi);
    lemma_text_of_lines_append(pro + lp + lq, epi);
    lemma_text_of_lines_append(pro + lp, lq);
    lemma_text_of_lines_append(pro, lp);
}

/// How the assembler reads an unsigned decimal immediate: digits, with no
/// leading zero unless the number is zero (a leading zero means octal).
pub open spec fn unsigned_decimal_value(ds: Seq<char>) -> Option<int> {
    if ds.len() > 0 && all_digits(ds) && (ds.len() == 1 || ds[0] != '0') {
        Some(digits_value(ds) as int)
    } else {
        None
    }
}

/// How the assembler reads a decimal immediate with an optional minus sign.
pub open spec fn decimal_immediate_value(imm: Seq<char>) -> Option<int> {
    if imm.len() > 0 && imm[0] == '-' {
        match unsigned_decimal_value(imm.drop_first()) {
            Some(v) => Some(-v),
            None => None,
        }
    } else {
        unsigned_decimal_value(imm)
    }
}

/// The code for `Push(n)` is one `pushq` line whose immediate the assembler
/// reads as `n`.
pub proof fn lemma_push_line_denotes_value(n: i64)
    ensures
        instr_lines(Instr::Push(n)).len() == 1,
        exists|imm: Seq<char>|
            instr_lines(Instr::Push(n))[0] == "    pushq $"@ + imm && decimal_immediate_value(imm)
                == Some(n as int),
{
    let imm = int_text(n as int);
    if n < 0 {
        let m = (-n) as nat;
        lemma_nat_text_digits(m);
        assert(imm[0] == '-');
        assert(imm.drop_first() =~= nat_text(m));
    } else {
        lemma_nat_text_digits(n as nat);
        assert(imm == nat_text(n as nat));
    }
    assert(decimal_immediate_value(imm) == Some(n as int));
    assert(instr_lines(Instr::Push(n))[0] == "    pushq $"@ + imm);
}

fn prologue() -> (lines: &'static [&'static str])
    ensures
        lines@.map_values(|s: &str| s@) == prologue_lines(),
{
    let lines: &'static [&'static str] = &[
        "    .section .text",
        "    .globl main",
        "main:",
        "    pushq %rbp",
        "    movq  %rsp, %rbp",
    ];
    assert(lines@.map_values(|s: &str| s@) =~= prologue_lines());
    lines
}

fn epilogue() -> (lines: &'static [&'static str])
    ensures
        lines@.map_values(|s: &str| s@) == epilogue_lines(),
{
    let lines: &'static [&'static str] = &[
        "    popq  %rsi",
        "    leaq  fmt(%rip), %rdi",
        "    xorl  %eax, %eax",
        "    call  printf",
        "    xorl  %eax, %eax",
        "    popq  %rbp",
        "    ret",
        ".Ldiv_zero_error:",
        "    leaq  errmsg(%rip), %rdi",
        "    call  puts",
        "    movl  $1, %edi",
        "    call  exit",
        "    .section .rodata",
        "fmt:",
        "    .string \"%d\\n\"",
        "errmsg:",
        "    .string \"division by zero\"",
        "    .section .note.GNU-stack,\"\",@progbits",
    ];
    assert(lines@.map_values(|s: &str| s@) =~= epilogue_lines());
    lines
}

fn lines_of(texts: &[&str]) -> (v: Vec<String>)
    ensures
        v.deep_view() == texts@.map_values(|s: &str| s@),
{
    let mut v: Vec<String> = Vec::new();
    for i in 0..texts.len()
        invariant
            v.deep_view() =~= texts@.take(i as int).map_values(|s: &str| s@),
    {
        let ghost before = v.deep_view();
        let line = String::from_str(texts[i]);
        v.push(line);
        assert(v.deep_view() =~= before.push(texts@[i as int]@));
        assert(texts@.take(i + 1) =~= texts@.take(i as int).push(texts@[i as int]));
    }
    assert(texts@.take(texts@.len() as int) =~= texts@);
    v
}

fn gen_instr(instr: &Instr) -> (lines: Vec<String>)
    ensures
        lines.deep_view() == instr_lines(*instr),
{
    match instr {
        Instr::Push(n) => {
            let mut line = String::from_str("    pushq $");
            push_int(&mut line, *n);
            let mut lines: Vec<String> = Vec::new();
            lines.push(line);
            assert(lines.deep_view() =~= instr_lines(*instr));
            lines
        },
        Instr::Add => lines_of(
            &["    popq  %rax", "    popq  %rbx", "    addq  %rbx, %rax", "    pushq %rax"],
        ),
        Instr::Sub => lines_of(
            &["    popq  %rax", "    popq  %rbx", "    subq  %rax, %rbx", "    pushq %rbx"],
        ),
        Instr::Mul => lines_of(
            &["    popq  %rax", "    popq  %rbx", "    imulq %rbx, %rax", "    pushq %rax"],
        ),
        Instr::Div => lines_of(
            &[
                "    popq  %rcx",
                "    cmpq  $0, %rcx",
                "    je    .Ldiv_zero_error",
                "    popq  %rax",
                "    cqto",
                "    idivq %rcx",
                "    pushq %rax",
            ],
        ),
        Instr::Neg => lines_of(&["    popq  %rax", "    negq  %rax", "    pushq %rax"]),
    }
}

fn push_line(out: &mut String, line: &str)
    ensures
        final(out)@ == old(out)@ + line@ + seq!['\n'],
{
    out.append(line);
    out.append("\n");
    proof {
        reveal_strlit("\n");
    }
}

/// Emits the assembly file for `instrs`: the prologue, the lines of each
/// instruction in order, then the epilogue, each line ended by a line feed.
pub fn codegen(instrs: &[Instr]) -> (text: String)
    ensures
        text@ == assembly(instrs@),
{
    let mut out = String::new();
    let ghost mut lines: Seq<Seq<char>> = seq![];
    let head = prologue();
    for k in 0..head.len()
        invariant
            lines =~= head@.take(k as int).map_values(|s: &str| s@),
            out@ == text_of_lines(lines),
    {
        push_line(&mut out, head[k]);
        proof {
            let old_lines = lines;
            lines = lines.push(head[k as int]@);
            assert(lines.drop_last() =~= old_lines);
        }
    }
    assert(head@.take(head@.len() as int) =~= head@);
    for k in 0..instrs.len()
        invariant
            lines == prologue_lines() + program_lines(instrs@.take(k as int)),
            out@ == text_of_lines(lines),
    {
        let block = gen_instr(&instrs[k]);
        let ghost before = lines;
        for j in 0..block.len()
            invariant
                lines =~= before + block.deep_view().take(j as int),
                out@ == text_of_lines(lines),
        {
            push_line(&mut out, block[j].as_str());
            proof {
                let old_lines = lines;
                lines = lines.push(block.deep_view()[j as int]);
                assert(lines.drop_last() =~= old_lines);
            }
        }
        proof {
            assert(block.deep_view().take(block.len() as int) =~= block.deep_view());
            assert(instrs@.take(k + 1).drop_last() =~= instrs@.take(k as int));
            assert(before + instr_lines(instrs@[k as int]) =~= prologue_lines() + (program_lines(
                instrs@.take(k as int),
            ) + instr_lines(instrs@[k as int])));
        }
    }
    assert(instrs@.take(instrs@.len() as int) =~= instrs@);
    let tail = epilogue();
    let ghost body = lines;
    for k in 0..tail.len()
        invariant
            lines =~= body + tail@.take(k as int).map_values(|s: &str| s@),
            out@ == text_of_lines(lines),
    {
        push_line(&mut out, tail[k]);
        proof {
            let old_lines = lines;
            lines = lines.push(tail[k as int]@);
            assert(lines.drop_last() =~= old_lines);
        }
    }
    assert(tail@.take(tail@.len() as int) =~= tail@);
    out
}

} // verus!
