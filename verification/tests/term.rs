use leapstore::term::{Id, Iri, LangTag, Literal, Term};

#[test]
fn iri_parse_takes_an_absolute_iri() {
    let iri = Iri::parse(String::from("http://example.org/line/1")).unwrap();
    assert_eq!(iri.as_str(), "http://example.org/line/1");
    assert_eq!(iri.into_inner(), String::from("http://example.org/line/1"));
}

#[test]
fn iri_parse_refuses_what_is_no_iri() {
    assert!(Iri::parse(String::from("no scheme here")).is_none());
    assert!(Iri::parse(String::from("")).is_none());
    assert!(Iri::parse(String::from("http://exa mple.org/")).is_none());
}

#[test]
fn lang_tag_parse_takes_a_well_formed_tag() {
    let tag = LangTag::parse(String::from("en-us")).unwrap();
    assert_eq!(tag.as_str(), "en-us");
    assert_eq!(LangTag::parse(String::from("nl")).unwrap().into_inner(), "nl");
}

#[test]
fn lang_tag_parse_refuses_what_is_no_tag() {
    assert!(LangTag::parse(String::from("")).is_none());
    assert!(LangTag::parse(String::from("not a tag")).is_none());
    assert!(LangTag::parse(String::from("abcdefghijk")).is_none());
}

#[test]
fn plain_literal_has_no_datatype() {
    let lit = Literal::new(String::from("hello"));
    assert_eq!(lit.form(), "hello");
    assert!(lit.datatype().is_none());
    assert!(lit.lang().is_none());
    assert_eq!(lit, Literal::new_untyped(String::from("hello")));
}

#[test]
fn typed_literal_keeps_its_datatype() {
    let ty = Iri::parse(String::from("http://www.w3.org/2001/XMLSchema#integer")).unwrap();
    let lit = Literal::new_typed(String::from("42"), ty);
    assert_eq!(lit.form(), "42");
    assert_eq!(lit.datatype().unwrap().as_str(), "http://www.w3.org/2001/XMLSchema#integer");
    assert!(lit.lang().is_none());
}

#[test]
fn language_literal_gets_the_lang_string_datatype() {
    let tag = LangTag::parse(String::from("nl")).unwrap();
    let lit = Literal::new_lang(String::from("hallo wereld"), tag).unwrap();
    assert_eq!(lit.form(), "hallo wereld");
    assert_eq!(
        lit.datatype().unwrap().as_str(),
        "http://www.w3.org/1999/02/22-rdf-syntax-ns#langString"
    );
    assert_eq!(lit.lang().unwrap().as_str(), "nl");
}

#[test]
fn terms_compare_by_structure() {
    let a = Term::Id(Id::Blank(String::from("b0")));
    let b = Term::Id(Id::Blank(String::from("b1")));
    let n = Term::Id(Id::Named(Iri::parse(String::from("http://example.org/a")).unwrap()));
    let l = Term::Literal(Literal::new(String::from("x")));
    assert!(a < b);
    assert!(n < a);
    assert!(b < l);
    assert_eq!(a.clone(), a);
    assert_ne!(a, b);
}
