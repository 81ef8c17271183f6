//! The events of a markup document, as the extraction walks them.
use vstd::prelude::*;
use vstd::string::*;

verus! {

/// The namespace of the reserved `xml:` attributes.
pub const XML_NAMESPACE: &'static str = "http://www.w3.org/XML/1998/namespace";

/// The namespace of XInclude elements.
pub const XINCLUDE_NAMESPACE: &'static str = "http://www.w3.org/2001/XInclude";

/// An attribute of an element.
pub struct Attribute {
    pub local_name: String,
    pub namespace: Option<String>,
    pub value: String,
}

/// One event of a document walked in order.
pub enum Event {
    StartElement { local_name: String, namespace: Option<String>, attributes: Vec<Attribute> },
    EndElement { local_name: String },
    Characters(String),
}

/// Whether `s` holds exactly the characters of `lit`.
pub fn str_is(s: &String, lit: &str) -> (r: bool)
    ensures
        r == (s@ == lit@),
{
    *s == String::from_str(lit)
}

/// Whether `ns` is present and holds exactly the characters of `lit`.
pub fn namespace_is(ns: &Option<String>, lit: &str) -> (r: bool)
    ensures
        r == (ns matches Some(n) && n@ == lit@),
{
    match ns {
        Some(n) => str_is(n, lit),
        None => false,
    }
}

/// The attribute is the element's reserved identifier, `xml:id`.
pub open spec fn is_xml_id(a: Attribute) -> bool {
    a.local_name@ == "id"@ && (a.namespace matches Some(n) && n@ == XML_NAMESPACE@)
}

/// The value of the first attribute among `attrs` whose local name is `name`.
pub open spec fn attr_value(attrs: Seq<Attribute>, name: Seq<char>) -> Option<Seq<char>>
    decreases attrs.len(),
{
    if attrs.len() == 0 {
        None
    } else if attrs[0].local_name@ == name {
        Some(attrs[0].value@)
    } else {
        attr_value(attrs.drop_first(), name)
    }
}

/// The value of the first attribute whose local name is `name`.
pub fn get_attr<'a>(name: &str, attributes: &'a Vec<Attribute>) -> (r: Option<&'a str>)
    ensures
        match r {
            Some(v) => attr_value(attributes@, name@) == Some(v@),
            None => attr_value(attributes@, name@) is None,
        },
{
    let mut i: usize = 0;
    assert(attributes@.subrange(0, attributes@.len() as int) =~= attributes@);
    while i < attributes.len()
        invariant
            i <= attributes@.len(),
            attr_value(attributes@, name@) == attr_value(
                attributes@.subrange(i as int, attributes@.len() as int),
                name@,
            ),
        decreases attributes@.len() - i,
    {
        let ghost rest = attributes@.subrange(i as int, attributes@.len() as int);
        assert(rest.drop_first() =~= attributes@.subrange(i + 1, attributes@.len() as int));
        if str_is(&attributes[i].local_name, name) {
            return Some(attributes[i].value.as_str());
        }
        i = i + 1;
    }
    None
}

/// The value of the first `xml:id` attribute among `attrs`.
pub open spec fn xml_id_of(attrs: Seq<Attribute>) -> Option<Seq<char>>
    decreases attrs.len(),
{
    if attrs.len() == 0 {
        None
    } else if is_xml_id(attrs[0]) {
        Some(attrs[0].value@)
    } else {
        xml_id_of(attrs.drop_first())
    }
}

/// The value of the element's first `xml:id` attribute.
pub fn element_id(attributes: &Vec<Attribute>) -> (r: Option<String>)
    ensures
        match r {
            Some(v) => xml_id_of(attributes@) == Some(v@),
            None => xml_id_of(attributes@) is None,
        },
{
    let mut i: usize = 0;
    assert(attributes@.subrange(0, attributes@.len() as int) =~= attributes@);
    while i < attributes.len()
        invariant
            i <= attributes@.len(),
            xml_id_of(attributes@) == xml_id_of(attributes@.subrange(i as int, attributes@.len() as int)),
        decreases attributes@.len() - i,
    {
        let ghost rest = attributes@.subrange(i as int, attributes@.len() as int);
        assert(rest.drop_first() =~= attributes@.subrange(i + 1, attributes@.len() as int));
        let a = &attributes[i];
        if str_is(&a.local_name, "id") && namespace_is(&a.namespace, XML_NAMESPACE) {
            return Some(a.value.clone());
        }
        i = i + 1;
    }
    None
}

} // verus!
