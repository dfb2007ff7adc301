use rust_lisp_parser::codegen::codegen;

#[test]
fn sample_assembly() {
    assert_eq!(
        codegen(),
        "push 34\npush 35\npop rdx\npop rax\nadd rax, rdx\n"
    );
}
