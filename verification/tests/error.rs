use witchhat_core::Error;

#[test]
fn messages() {
    assert_eq!(
        Error::unknown_column("a\"b").message(),
        "column \"a\\\"b\" not found in schema"
    );
    assert_eq!(
        Error::type_mismatch("id", "Int64", "Utf8").message(),
        "column \"id\" has type Utf8, expected Int64"
    );
    assert_eq!(
        Error::schema_mismatch("no").message(),
        "schema mismatch: no"
    );
    assert_eq!(
        Error::unsupported_type("List").message(),
        "unsupported arrow type for this operation: List"
    );
    assert_eq!(
        Error::config("bad").message(),
        "invalid configuration: bad"
    );
}

#[test]
fn constructors_fill_their_variants() {
    assert!(matches!(Error::unknown_column("c"), Error::UnknownColumn(c) if c == "c"));
    assert!(matches!(
        Error::type_mismatch("c", "e", "a"),
        Error::TypeMismatch { column, expected, actual }
            if column == "c" && expected == "e" && actual == "a"
    ));
    assert!(matches!(Error::schema_mismatch("r"), Error::SchemaMismatch(r) if r == "r"));
    assert!(matches!(Error::unsupported_type("t"), Error::UnsupportedType(t) if t == "t"));
    assert!(matches!(Error::config("r"), Error::Config(r) if r == "r"));
}
