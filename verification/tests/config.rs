use mo_fmt::{Config, IndentWidth, Syntax};

#[test]
fn indent_width_is_between_one_and_sixteen() {
    assert_eq!(IndentWidth::try_from(4).unwrap().get(), 4);
    assert_eq!(IndentWidth::try_from(16).unwrap().get(), 16);
    assert_eq!(
        IndentWidth::try_from(0).unwrap_err(),
        "indent-width must be between 1 and 16, not 0"
    );
    assert_eq!(
        IndentWidth::try_from(-3).unwrap_err(),
        "indent-width must be between 1 and 16, not -3"
    );
    assert_eq!(
        IndentWidth::try_from(i64::MIN).unwrap_err(),
        "indent-width must be between 1 and 16, not -9223372036854775808"
    );
    assert_eq!(IndentWidth::MAX, 16);
}

#[test]
fn the_default_is_preserve_with_two_spaces() {
    let config = Config::default();
    assert!(config.syntax == Syntax::Preserve);
    assert_eq!(config.indent_width.get(), 2);
}
