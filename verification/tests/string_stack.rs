use blueprint_helpers::json_walk::string_stack::StringStack;

#[test]
fn test_string_stack() {
    let mut s = vec![];
    let mut stack = StringStack::new(&mut s);
    let mut stack = stack.push("a");
    {
        let b = "b".to_owned();
        let stack = stack.push(&b);
        assert_eq!(stack.as_slice(), ["a", "b"]);
    };
    assert_eq!(stack.as_slice(), ["a"]);
}
