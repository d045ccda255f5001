use rust_helpers::greet_rust_helpers;

#[test]
fn test_greet_rust_helpers() {
    let greeting = greet_rust_helpers("Alice");
    assert_eq!(greeting, "Hello, Alice! Welcome to Rust Helpers.");
}

#[test]
fn greeting_accepts_an_empty_name() {
    assert_eq!(greet_rust_helpers(""), "Hello, ! Welcome to Rust Helpers.");
}

#[test]
fn greeting_keeps_the_name_as_given() {
    assert_eq!(
        greet_rust_helpers("  Zoë O'Neil "),
        "Hello,   Zoë O'Neil ! Welcome to Rust Helpers."
    );
}
