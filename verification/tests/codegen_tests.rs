use minclang::codegen::codegen;
use minclang::compiler::Instr;

#[test]
fn prologue_contains_main_label() {
    assert!(codegen(&[]).contains("main:"));
}

#[test]
fn push_generates_pushq() {
    assert!(codegen(&[Instr::Push(42)]).contains("pushq $42"));
}

#[test]
fn add_generates_addq() {
    assert!(codegen(&[Instr::Add]).contains("addq"));
}

#[test]
fn sub_generates_subq() {
    assert!(codegen(&[Instr::Sub]).contains("subq"));
}

#[test]
fn mul_generates_imulq() {
    assert!(codegen(&[Instr::Mul]).contains("imulq"));
}

#[test]
fn div_generates_idivq() {
    assert!(codegen(&[Instr::Div]).contains("idivq"));
}

#[test]
fn neg_generates_negq() {
    assert!(codegen(&[Instr::Neg]).contains("negq"));
}

#[test]
fn div_contains_zero_check() {
    assert!(codegen(&[Instr::Div]).contains(".Ldiv_zero_error"));
}

#[test]
fn epilogue_contains_printf() {
    assert!(codegen(&[]).contains("call  printf"));
}

const PROLOGUE: &str = "    .section .text\n    .globl main\nmain:\n    pushq %rbp\n    movq  %rsp, %rbp\n";

const EPILOGUE: &str = "    popq  %rsi\n    leaq  fmt(%rip), %rdi\n    xorl  %eax, %eax\n    call  printf\n    xorl  %eax, %eax\n    popq  %rbp\n    ret\n.Ldiv_zero_error:\n    leaq  errmsg(%rip), %rdi\n    call  puts\n    movl  $1, %edi\n    call  exit\n    .section .rodata\nfmt:\n    .string \"%d\\n\"\nerrmsg:\n    .string \"division by zero\"\n    .section .note.GNU-stack,\"\",@progbits\n";

#[test]
fn empty_program_is_prologue_then_epilogue() {
    assert_eq!(codegen(&[]), format!("{PROLOGUE}{EPILOGUE}"));
}

#[test]
fn negative_literal_is_written_in_decimal() {
    let text = codegen(&[Instr::Push(-5)]);
    assert_eq!(text, format!("{PROLOGUE}    pushq $-5\n{EPILOGUE}"));
}

#[test]
fn extreme_literals_are_written_in_decimal() {
    let text = codegen(&[Instr::Push(i64::MIN), Instr::Push(i64::MAX), Instr::Push(0)]);
    assert_eq!(
        text,
        format!(
            "{PROLOGUE}    pushq $-9223372036854775808\n    pushq $9223372036854775807\n    pushq $0\n{EPILOGUE}"
        )
    );
}

#[test]
fn instruction_blocks_follow_program_order() {
    let text = codegen(&[Instr::Push(6), Instr::Push(3), Instr::Div, Instr::Neg]);
    let body = "    pushq $6\n    pushq $3\n    popq  %rcx\n    cmpq  $0, %rcx\n    je    .Ldiv_zero_error\n    popq  %rax\n    cqto\n    idivq %rcx\n    pushq %rax\n    popq  %rax\n    negq  %rax\n    pushq %rax\n";
    assert_eq!(text, format!("{PROLOGUE}{body}{EPILOGUE}"));
}

#[test]
fn sub_and_mul_blocks() {
    let text = codegen(&[Instr::Sub, Instr::Mul, Instr::Add]);
    let body = "    popq  %rax\n    popq  %rbx\n    subq  %rax, %rbx\n    pushq %rbx\n    popq  %rax\n    popq  %rbx\n    imulq %rbx, %rax\n    pushq %rax\n    popq  %rax\n    popq  %rbx\n    addq  %rbx, %rax\n    pushq %rax\n";
    assert_eq!(text, format!("{PROLOGUE}{body}{EPILOGUE}"));
}
