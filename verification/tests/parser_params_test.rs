use rz3::parser::Parser;

#[test]
fn test_parse_declare_fun_params() {
    let input = "(declare-fun f ((x Real) (y Real)) Real)";
    let mut parser = Parser::new(input);
    let _cmd = parser.parse_command().unwrap();
}
