use text_files::greeting::greet;

#[test]
fn greets_by_name() {
    assert_eq!(greet("World"), "Hello, World! You've been greeted from Rust!");
}

#[test]
fn greets_nobody() {
    assert_eq!(greet(""), "Hello, ! You've been greeted from Rust!");
}

#[test]
fn keeps_the_name_as_it_is() {
    assert_eq!(
        greet(" Zo\u{00EB} {} "),
        "Hello,  Zo\u{00EB} {} ! You've been greeted from Rust!"
    );
}
