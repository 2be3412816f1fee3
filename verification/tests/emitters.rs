use bfc::c_emitter::CEmitter;
use bfc::ir::{IRProgram, IR};
use bfc::riscv_emitter::RiscVEmitter;
use bfc::text::{decimal, digits};
use bfc::x86_emitter::X86Emitter;

fn sample() -> IRProgram {
    IRProgram(vec![
        IR::PtrChange(-3),
        IR::Add(2, -1),
        IR::Loop(vec![IR::Putch(0), IR::SimpleLoop(-1, vec![IR::Getch(-12)])]),
        IR::Loop(vec![]),
        IR::AddMul(4, 5),
        IR::MovImm(-6, 7),
    ])
}

#[test]
fn decimal_numerals() {
    assert_eq!(decimal(0), "0");
    assert_eq!(decimal(7), "7");
    assert_eq!(decimal(-7), "-7");
    assert_eq!(decimal(10), "10");
    assert_eq!(decimal(30000), "30000");
    assert_eq!(decimal(i32::MAX), "2147483647");
    assert_eq!(decimal(i32::MIN), "-2147483648");
    assert_eq!(digits(0), "0");
    assert_eq!(digits(1905), "1905");
    assert_eq!(digits(u64::MAX), "18446744073709551615");
}

#[test]
fn c_source_of_sample() {
    assert_eq!(
        CEmitter::emit(&sample(), false, 30000),
        vec![
            "#include <stdio.h>",
            "char arr[30000];",
            "int idx = 0;",
            "int main() {",
            "  idx += -3;",
            "  arr[idx + 2] += -1;",
            "  while (arr[idx]) {",
            "  putchar(arr[idx + 0]);",
            "  for ( ; arr[idx]; arr[idx] += -1) {",
            "  arr[idx + -12] = (char)getchar();",
            "  }",
            "  }",
            "  while (arr[idx]) {",
            "  }",
            "  arr[idx + 4] += (arr[idx] * 5);",
            "  arr[idx + -6] = 7;",
            "return 0;",
            "}",
        ]
    );
}

#[test]
fn c_source_of_empty_program() {
    assert_eq!(
        CEmitter::emit(&IRProgram(vec![]), true, 1),
        vec![
            "#include <stdio.h>",
            "char arr[1];",
            "int idx = 0;",
            "int main() {",
            "return 0;",
            "}",
        ]
    );
}

#[test]
fn x86_source_of_sample() {
    assert_eq!(
        X86Emitter::emit(&sample(), false, 30000),
        vec![
            ".section .bss",
            "arr: .skip 30000",
            ".text",
            ".globl main",
            "main:",
            "  movq $arr, %rbx",
            "  add $-3, %rbx",
            "  movb 2(%rbx), %dil",
            "  add $-1, %dil",
            "  movb %dil, 2(%rbx)",
            "label_1:",
            "  movb (%rbx), %dil",
            "  cmp $0, %dil",
            "  je label_1_done",
            "  movb 0(%rbx), %dil",
            "  call putchar",
            "label_2:",
            "  movb (%rbx), %dil",
            "  cmp $0, %dil",
            "  je label_2_done",
            "  call getchar",
            "  movb %al, -12(%rbx)",
            "  movb 0(%rbx), %dil",
            "  add $-1, %dil",
            "  movb %dil, 0(%rbx)",
            "  jmp label_2",
            "label_2_done:",
            "  jmp label_1",
            "label_1_done:",
            "label_3:",
            "  movb (%rbx), %dil",
            "  cmp $0, %dil",
            "  je label_3_done",
            "  jmp label_3",
            "label_3_done:",
            "  movb (%rbx), %dil",
            "  imul $5, %rdi",
            "  movb 4(%rbx), %sil",
            "  add %sil, %dil",
            "  movb %dil, 4(%rbx)",
            "  movb $7, -6(%rbx)",
            "  mov $60, %rax",
            "  mov $0, %rdi",
            "  syscall",
        ]
    );
}

#[test]
fn x86_source_without_stdlib() {
    assert_eq!(
        X86Emitter::emit(&IRProgram(vec![IR::Getch(1), IR::Putch(1)]), true, 16),
        vec![
            ".section .bss",
            "arr: .skip 16",
            ".text",
            "putch:",
            "  mov $1, %rax",
            "  mov $1, %rdi",
            "  movq %rbx, %rsi",
            "  mov $1, %rdx",
            "  syscall",
            "  ret",
            "getch:",
            "  mov $0, %rax",
            "  mov $0, %rdi",
            "  movq %rbx, %rsi",
            "  mov $1, %rdx",
            "  syscall",
            "  ret",
            ".globl _start",
            "_start:",
            "  movq $arr, %rbx",
            "  call gettch",
            "  call putch",
            "  mov $60, %rax",
            "  mov $0, %rdi",
            "  syscall",
        ]
    );
}

#[test]
fn riscv_source_of_sample() {
    assert_eq!(
        RiscVEmitter::emit(&sample(), false, 30000),
        vec![
            ".section .bss",
            "arr: .skip 30000",
            ".text",
            ".globl main",
            "main:",
            "  la s1, arr",
            "  addi s1, s1, -3",
            "  lb t0, 2(s1)",
            "  addi t0, t0, -1",
            "  sb t0, 2(s1)",
            "label_1:",
            "  lb t0, (s1)",
            "  beqz t0, label_1_done",
            "  li a0, 1",
            "  mv a1, s1",
            "  addi a1, a1, 0",
            "  li a2, 1",
            "  call write",
            "label_2:",
            "  lb t0, (s1)",
            "  beqz t0, label_2_done",
            "  li a0, 0",
            "  mv a1, s1",
            "  addi a1, a1, -12",
            "  li a2, 1",
            "  call read",
            "  lb t0, 0(s1)",
            "  addi t0, t0, -1",
            "  sb t0, 0(s1)",
            "  j label_2",
            "label_2_done:",
            "  j label_1",
            "label_1_done:",
            "label_3:",
            "  lb t0, (s1)",
            "  beqz t0, label_3_done",
            "  j label_3",
            "label_3_done:",
            "  lb t0, (s1)",
            "  li t1, 5",
            "  mul t0, t0, t1",
            "  lb t1, 4(s1)",
            "  add t0, t0, t1",
            "  sb t0, 4(s1)",
            "  li t0, 7",
            "  sb t0, -6(s1)",
            "  li a0, 0",
            "  call exit",
        ]
    );
}

#[test]
fn riscv_source_without_stdlib() {
    assert_eq!(
        RiscVEmitter::emit(&IRProgram(vec![IR::Getch(1), IR::Putch(-1)]), true, 16),
        vec![
            ".section .bss",
            "arr: .skip 16",
            ".text",
            ".globl _start",
            "_start:",
            "  la s1, arr",
            "  li a0, 0",
            "  mv a1, s1",
            "  addi a1, a1, 1",
            "  li a2, 1",
            "  li a7, 63",
            "  ecall",
            "  li a0, 1",
            "  mv a1, s1",
            "  addi a1, a1, -1",
            "  li a2, 1",
            "  li a7, 64",
            "  ecall",
            "  li a0, 0",
            "  li a7, 93",
            "  ecall",
        ]
    );
}
