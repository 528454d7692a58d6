use elm_json::package::{Name, NameError};

#[test]
fn test_parse_name() {
    assert!("foo/bar".parse::<Name>().is_ok());
    assert!("foo-bar-123/bar".parse::<Name>().is_ok());
    assert!("1/bar".parse::<Name>().is_ok());
    assert!("foo/b-r".parse::<Name>().is_ok());

    assert!("".parse::<Name>().is_err());
    assert!("/".parse::<Name>().is_err());
    assert!("foo/".parse::<Name>().is_err());
    assert!("/bar".parse::<Name>().is_err());
    assert!("\n/bar".parse::<Name>().is_err());
    assert!("-foo/bar".parse::<Name>().is_err());
    assert!("foo-/bar".parse::<Name>().is_err());
    assert!("foo/ba-".parse::<Name>().is_err());
}

#[test]
fn each_rule_has_its_own_error() {
    assert_eq!(Name::parse("").unwrap_err(), NameError::Malformed);
    assert_eq!(Name::parse("a/b/c").unwrap_err(), NameError::Malformed);
    assert_eq!(Name::parse("/").unwrap_err(), NameError::AuthorEmpty);
    assert_eq!(Name::parse("/bar").unwrap_err(), NameError::AuthorEmpty);
    assert_eq!(Name::parse("-foo/bar").unwrap_err(), NameError::AuthorLeadingDash);
    assert_eq!(Name::parse("foo-/bar").unwrap_err(), NameError::AuthorTrailingDash);
    assert_eq!(Name::parse("fo--o/bar").unwrap_err(), NameError::AuthorDoubleDash);
    assert_eq!(
        Name::parse("a234567890123456789012345678901234567890/bar").unwrap_err(),
        NameError::AuthorTooLong
    );
    assert!(Name::parse("a23456789012345678901234567890123456789/bar").is_ok());
    assert_eq!(Name::parse("\n/bar").unwrap_err(), NameError::AuthorInvalidChar);
    assert_eq!(Name::parse("fo_o/bar").unwrap_err(), NameError::AuthorInvalidChar);
    assert_eq!(Name::parse("foo/").unwrap_err(), NameError::ProjectEmpty);
    assert_eq!(Name::parse("foo/b--r").unwrap_err(), NameError::ProjectDoubleDash);
    assert_eq!(Name::parse("foo/ba-").unwrap_err(), NameError::ProjectTrailingDash);
    assert_eq!(Name::parse("foo/Bar").unwrap_err(), NameError::ProjectInvalidChar);
    assert_eq!(Name::parse("foo/1bar").unwrap_err(), NameError::ProjectLeadingNonLetter);
    assert_eq!(Name::parse("foo/-bar").unwrap_err(), NameError::ProjectLeadingNonLetter);
    assert_eq!(
        Name::new("", "bar").unwrap_err().to_string(),
        "Author name may not be empty. A valid package name looks like \"author/project\"."
    );
}

#[test]
fn name_display_round_trip() {
    let name = Name::new("elm-explorations", "test").unwrap();
    assert_eq!(name.to_string(), "elm-explorations/test");
    assert_eq!(name.author(), "elm-explorations");
    assert_eq!(name.project(), "test");
    let again: Name = name.to_string().parse().unwrap();
    assert_eq!(again, name);
    assert!(again.same(&name.clone()));
}

#[test]
fn names_order_by_author_then_project() {
    let a = Name::new("a", "x").unwrap();
    let a_b = Name::new("a-b", "x").unwrap();
    let a_y = Name::new("a", "y").unwrap();
    assert!(a.precedes(&a_y));
    assert!(a.precedes(&a_b));
    assert!(a_y.precedes(&a_b));
    assert!(!a_b.precedes(&a));
    assert!(!a.precedes(&a.clone()));
    assert_eq!(a.precedes(&a_b), a < a_b);
    assert_eq!(a_y.precedes(&a_b), a_y < a_b);
}
