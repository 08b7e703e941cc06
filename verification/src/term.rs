//! The terms that the dictionary keys of facts stand for: identifiers and
//! literals.

use vstd::prelude::*;

verus! {

/// Whether `text` is an absolute IRI by the grammar of RFC 3987, as
/// `oxiri::Iri::parse` decides it.
pub uninterp spec fn iri_valid(text: Seq<char>) -> bool;

/// Whether `text` is a well-formed language tag by RFC 5646, as
/// `oxilangtag::LanguageTag::parse` decides it.
pub uninterp spec fn lang_tag_valid(text: Seq<char>) -> bool;

/// Calls `oxiri::Iri::parse` on `text` and says whether it accepted it. The
/// outcome depends on the text alone; nothing more is claimed of it.
#[verifier::external_body]
fn iri_parses(text: &str) -> (ok: bool)
    ensures
        ok == iri_valid(text@),
{
    oxiri::Iri::parse(text).is_ok()
}

/// Calls `oxilangtag::LanguageTag::parse` on `text` and says whether it
/// accepted it. The outcome depends on the text alone; nothing more is
/// claimed of it.
#[verifier::external_body]
fn lang_tag_parses(text: &str) -> (ok: bool)
    ensures
        ok == lang_tag_valid(text@),
{
    oxilangtag::LanguageTag::parse(text).is_ok()
}

/// The datatype of every language-tagged string.
pub open spec fn lang_string() -> Seq<char> {
    "http://www.w3.org/1999/02/22-rdf-syntax-ns#langString"@
}

/// An absolute IRI, kept as the text that was checked.
#[derive(Clone, Debug, PartialEq, Eq, PartialOrd, Ord)]
pub struct Iri {
    text: String,
}

impl View for Iri {
    type V = Seq<char>;

    closed spec fn view(&self) -> Seq<char> {
        self.text@
    }
}

impl Iri {
    /// Takes `text` as an IRI if it is a valid one.
    pub fn parse(text: String) -> (r: Option<Iri>)
        ensures
            r.is_some() == iri_valid(text@),
            r matches Some(iri) ==> iri@ == text@,
    {
        if iri_parses(text.as_str()) {
            Some(Iri { text })
        } else {
            None
        }
    }

    pub fn as_str(&self) -> (s: &str)
        ensures
            s@ == self@,
    {
        self.text.as_str()
    }

    pub fn into_inner(self) -> (s: String)
        ensures
            s@ == self@,
    {
        self.text
    }
}

/// A language tag, kept as the text that was checked.
#[derive(Clone, Debug, PartialEq, Eq, PartialOrd, Ord)]
pub struct LangTag {
    tag: String,
}

impl View for LangTag {
    type V = Seq<char>;

    closed spec fn view(&self) -> Seq<char> {
        self.tag@
    }
}

impl LangTag {
    /// Takes `tag` as a language tag if it is a well-formed one.
    pub fn parse(tag: String) -> (r: Option<LangTag>)
        ensures
            r.is_some() == lang_tag_valid(tag@),
            r matches Some(t) ==> t@ == tag@,
    {
        if lang_tag_parses(tag.as_str()) {
            Some(LangTag { tag })
        } else {
            None
        }
    }

    pub fn as_str(&self) -> (s: &str)
        ensures
            s@ == self@,
    {
        self.tag.as_str()
    }

    pub fn into_inner(self) -> (s: String)
        ensures
            s@ == self@,
    {
        self.tag
    }
}

/// An identifier: an IRI, or the label of a blank node.
#[derive(Clone, Debug, PartialEq, Eq, PartialOrd, Ord)]
pub enum Id {
    Named(Iri),
    Blank(String),
}

/// A term: an identifier or a literal.
#[derive(Clone, Debug, PartialEq, Eq, PartialOrd, Ord)]
pub enum Term {
    Id(Id),
    Literal(Literal),
}

/// A literal: its lexical form, with a datatype or without one, and with a
/// language tag where the datatype is that of language-tagged strings.
#[derive(Clone, Debug, PartialEq, Eq, PartialOrd, Ord)]
pub struct Literal {
    form: String,
    datatype: Option<Iri>,
    lang: Option<LangTag>,
}

/// What a literal holds, as text.
pub struct LiteralView {
    pub form: Seq<char>,
    pub datatype: Option<Seq<char>>,
    pub lang: Option<Seq<char>>,
}

impl View for Literal {
    type V = LiteralView;

    closed spec fn view(&self) -> LiteralView {
        LiteralView {
            form: self.form@,
            datatype: match self.datatype {
                Some(iri) => Some(iri@),
                None => None,
            },
            lang: match self.lang {
                Some(tag) => Some(tag@),
                None => None,
            },
        }
    }
}

impl Literal {
    /// A plain string literal: no datatype is kept for it, and no language.
    pub fn new(form: String) -> (l: Literal)
        ensures
            l@ == (LiteralView { form: form@, datatype: None, lang: None }),
    {
        Literal { form, datatype: None, lang: None }
    }

    /// A plain string literal: no datatype is kept for it, and no language.
    pub fn new_untyped(form: String) -> (l: Literal)
        ensures
            l@ == (LiteralView { form: form@, datatype: None, lang: None }),
    {
        Literal { form, datatype: None, lang: None }
    }

    /// A literal of the given datatype.
    pub fn new_typed(form: String, datatype: Iri) -> (l: Literal)
        ensures
            l@ == (LiteralView { form: form@, datatype: Some(datatype@), lang: None }),
    {
        Literal { form, datatype: Some(datatype), lang: None }
    }

    /// A language-tagged string with the datatype given by the caller.
    pub fn tagged(form: String, datatype: Iri, lang: LangTag) -> (l: Literal)
        ensures
            l@ == (LiteralView { form: form@, datatype: Some(datatype@), lang: Some(lang@) }),
    {
        Literal { form, datatype: Some(datatype), lang: Some(lang) }
    }

    /// A language-tagged string; its datatype is that of language-tagged
    /// strings. `None` only if that datatype's IRI were not a valid one.
    pub fn new_lang(form: String, lang: LangTag) -> (r: Option<Literal>)
        ensures
            r.is_some() == iri_valid(lang_string()),
            r matches Some(l) ==> l@ == (LiteralView {
                form: form@,
                datatype: Some(lang_string()),
                lang: Some(lang@),
            }),
    {
        let text = "http://www.w3.org/1999/02/22-rdf-syntax-ns#langString".to_owned();
        match Iri::parse(text) {
            Some(datatype) => Some(Literal::tagged(form, datatype, lang)),
            None => None,
        }
    }

    pub fn form(&self) -> (s: &str)
        ensures
            s@ == self@.form,
    {
        self.form.as_str()
    }

    pub fn datatype(&self) -> (d: Option<&Iri>)
        ensures
            d.is_some() == self@.datatype.is_some(),
            d matches Some(iri) ==> Some(iri@) == self@.datatype,
    {
        self.datatype.as_ref()
    }

    pub fn lang(&self) -> (t: Option<&LangTag>)
        ensures
            t.is_some() == self@.lang.is_some(),
            t matches Some(tag) ==> Some(tag@) == self@.lang,
    {
        self.lang.as_ref()
    }
}

} // verus!
