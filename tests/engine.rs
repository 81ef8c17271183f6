use docbook_index::extract::{compose_label, make_key, Emission, ExtractError, IndexBuilder};
use docbook_index::markup::{Attribute, Event, XINCLUDE_NAMESPACE, XML_NAMESPACE};
use docbook_index::strmap::StrMap;

fn open(name: &str) -> Event {
    Event::StartElement { local_name: name.to_string(), namespace: None, attributes: vec![] }
}

fn open_id(name: &str, id: &str) -> Event {
    Event::StartElement {
        local_name: name.to_string(),
        namespace: None,
        attributes: vec![Attribute {
            local_name: "id".to_string(),
            namespace: Some(XML_NAMESPACE.to_string()),
            value: id.to_string(),
        }],
    }
}

fn close(name: &str) -> Event {
    Event::EndElement { local_name: name.to_string() }
}

fn text(s: &str) -> Event {
    Event::Characters(s.to_string())
}

fn files(pairs: &[(&str, &str)]) -> StrMap {
    let mut m = StrMap::new();
    for (k, v) in pairs {
        m.insert(k.to_string(), v.to_string());
    }
    m
}

fn run(events: &[Event], file_map: StrMap) -> Vec<Emission> {
    let mut b = IndexBuilder::new(file_map);
    let mut out = vec![];
    for e in events {
        let em = b.handle_event(e).expect("no error expected");
        if em != Emission::Nothing {
            out.push(em);
        }
    }
    out
}

fn indexed(emissions: &[Emission]) -> Vec<(String, String, String)> {
    emissions
        .iter()
        .filter_map(|e| match e {
            Emission::Indexed { id, key, label } => Some((id.clone(), key.clone(), label.clone())),
            _ => None,
        })
        .collect()
}

fn stored(index: &elasticlunr::Index) -> serde_json::Value {
    let v: serde_json::Value = serde_json::from_str(&index.to_json()).unwrap();
    v.get("documentStore").unwrap().get("docs").unwrap().clone()
}

fn overview_doc() -> Vec<Event> {
    vec![
        open("a"),
        open("title"),
        text("Overview"),
        close("title"),
        open_id("b", "p1"),
        text("Hello world"),
        close("b"),
        close("a"),
    ]
}

#[test]
fn heading_labels_following_identifier() {
    let mut events = overview_doc();
    events[0] = open_id("a", "outer");
    let out = run(&events, files(&[("p1", "ch1.html"), ("outer", "ch1.html")]));
    assert_eq!(
        out,
        vec![
            Emission::Indexed {
                id: "p1".to_string(),
                key: "ch1.html#p1".to_string(),
                label: "Overview".to_string()
            },
            Emission::NoText { id: "outer".to_string() },
        ]
    );
}

#[test]
fn one_document_for_overview() {
    let idx = IndexBuilder::build_from(&overview_doc(), files(&[("p1", "ch1.html")])).unwrap();
    let docs = stored(&idx);
    let docs = docs.as_object().unwrap();
    assert_eq!(docs.len(), 1);
    let doc = docs.get("ch1.html#p1").unwrap();
    assert_eq!(doc.get("title").unwrap().as_str().unwrap(), "Overview");
    let body = doc.get("body").unwrap().as_str().unwrap();
    assert!(body.contains(" Hello world"));
    assert_eq!(body, " Hello world");
}

#[test]
fn orphan_identifier_is_skipped() {
    let events = vec![
        open("root"),
        open_id("p", "lost"),
        text("gone"),
        close("p"),
        open_id("p", "kept"),
        text("here"),
        close("p"),
        close("root"),
    ];
    let out = run(&events, files(&[("kept", "f.html")]));
    assert_eq!(
        out,
        vec![
            Emission::Orphan {
                id: "lost".to_string(),
                label: "".to_string(),
                text: " gone".to_string()
            },
            Emission::Indexed {
                id: "kept".to_string(),
                key: "f.html#kept".to_string(),
                label: "".to_string()
            },
        ]
    );
    let idx = IndexBuilder::build_from(&events, files(&[("kept", "f.html")])).unwrap();
    let docs = stored(&idx);
    assert_eq!(docs.as_object().unwrap().len(), 1);
    assert!(docs.get("f.html#kept").is_some());
}

#[test]
fn inner_identifier_takes_its_own_text() {
    let events = vec![
        open_id("sect", "outer"),
        text("before"),
        open_id("para", "inner"),
        text("inside"),
        open("emphasis"),
        text("deep"),
        close("emphasis"),
        close("para"),
        text("after"),
        close("sect"),
    ];
    let idx = IndexBuilder::build_from(&events, files(&[("outer", "o.html"), ("inner", "o.html")]))
        .unwrap();
    let docs = stored(&idx);
    let body = |k: &str| docs.get(k).unwrap().get("body").unwrap().as_str().unwrap().to_string();
    assert_eq!(body("o.html#inner"), " inside deep");
    assert_eq!(body("o.html#outer"), " before after");
}

#[test]
fn varlistentry_description_is_indexed() {
    let events = vec![
        open("variablelist"),
        open_id("varlistentry", "opt-x"),
        open("term"),
        text("opt"),
        close("term"),
        open("listitem"),
        open("para"),
        text("desc"),
        close("para"),
        close("listitem"),
        close("varlistentry"),
        close("variablelist"),
    ];
    let out = run(&events, files(&[("opt-x", "o.html")]));
    assert_eq!(
        out,
        vec![Emission::Indexed {
            id: "opt-x".to_string(),
            key: "o.html#opt-x".to_string(),
            label: "opt".to_string()
        }]
    );
    let idx = IndexBuilder::build_from(&events, files(&[("opt-x", "o.html")])).unwrap();
    let docs = stored(&idx);
    assert_eq!(docs.as_object().unwrap().len(), 1);
    let doc = docs.get("o.html#opt-x").unwrap();
    assert_eq!(doc.get("title").unwrap().as_str().unwrap(), "opt");
    assert_eq!(doc.get("body").unwrap().as_str().unwrap(), " desc");
}

#[test]
fn adjacent_terms_merge() {
    let events = vec![
        open("variablelist"),
        open_id("varlistentry", "entry"),
        open("term"),
        text("Foo"),
        close("term"),
        open("term"),
        text("Bar"),
        close("term"),
        open("listitem"),
        text("x"),
        close("listitem"),
        close("varlistentry"),
        close("variablelist"),
    ];
    let out = indexed(&run(&events, files(&[("entry", "g.html")])));
    assert_eq!(out, vec![("entry".to_string(), "g.html#entry".to_string(), "FooBar".to_string())]);
}

#[test]
fn separated_terms_stay_apart() {
    let events = vec![
        open("varlistentry"),
        open("term"),
        text("Foo"),
        close("term"),
        open_id("para", "first"),
        text("x"),
        close("para"),
        open("term"),
        text("Bar"),
        close("term"),
        open_id("para", "second"),
        text("y"),
        close("para"),
        close("varlistentry"),
    ];
    let out = indexed(&run(&events, files(&[("first", "g.html"), ("second", "g.html")])));
    assert_eq!(
        out,
        vec![
            ("first".to_string(), "g.html#first".to_string(), "Foo".to_string()),
            ("second".to_string(), "g.html#second".to_string(), "Bar".to_string()),
        ]
    );
}

#[test]
fn empty_element_between_terms_prevents_merge() {
    let events = vec![
        open("varlistentry"),
        open("term"),
        text("Foo"),
        close("term"),
        open("x"),
        close("x"),
        open("term"),
        text("Bar"),
        close("term"),
        open_id("para", "p"),
        text("y"),
        close("para"),
        close("varlistentry"),
    ];
    let out = indexed(&run(&events, files(&[("p", "g.html")])));
    assert_eq!(out, vec![("p".to_string(), "g.html#p".to_string(), "Bar".to_string())]);
}

#[test]
fn text_between_terms_prevents_merge() {
    let events = vec![
        open_id("varlistentry", "e"),
        open("term"),
        text("Foo"),
        close("term"),
        text("text"),
        open("term"),
        text("Bar"),
        close("term"),
        close("varlistentry"),
    ];
    let out = indexed(&run(&events, files(&[("e", "g.html")])));
    assert_eq!(out, vec![("e".to_string(), "g.html#e".to_string(), "Bar".to_string())]);
    let idx = IndexBuilder::build_from(&events, files(&[("e", "g.html")])).unwrap();
    let docs = stored(&idx);
    assert_eq!(docs.get("g.html#e").unwrap().get("body").unwrap().as_str().unwrap(), " text");
}

#[test]
fn heading_and_term_make_label() {
    let events = vec![
        open("chapter"),
        open("title"),
        text("Options"),
        close("title"),
        open("entry"),
        open("term"),
        text("foo"),
        close("term"),
        open_id("para", "p"),
        text("body"),
        close("para"),
        close("entry"),
        close("chapter"),
    ];
    let out = indexed(&run(&events, files(&[("p", "o.html")])));
    assert_eq!(out, vec![("p".to_string(), "o.html#p".to_string(), "Options: foo".to_string())]);
}

#[test]
fn term_is_not_seen_after_its_parent_closes() {
    let events = vec![
        open("root"),
        open("entry"),
        open("term"),
        text("foo"),
        close("term"),
        close("entry"),
        open_id("para", "p"),
        text("body"),
        close("para"),
        close("root"),
    ];
    let out = indexed(&run(&events, files(&[("p", "o.html")])));
    assert_eq!(out, vec![("p".to_string(), "o.html#p".to_string(), "".to_string())]);
}

#[test]
fn text_outside_identifiers_is_dropped() {
    let out = run(&[open("root"), text("loose"), close("root")], StrMap::new());
    assert_eq!(out, vec![Emission::TextDropped { text: "loose".to_string() }]);
}

#[test]
fn nested_title_fails() {
    let events = vec![open("title"), open("title")];
    assert_eq!(
        IndexBuilder::build_from(&events, StrMap::new()).err(),
        Some(ExtractError::NestedTitle)
    );
}

#[test]
fn nested_term_fails() {
    let events = vec![open("term"), open("b"), open("term")];
    assert_eq!(
        IndexBuilder::build_from(&events, StrMap::new()).err(),
        Some(ExtractError::NestedTerm)
    );
}

#[test]
fn xinclude_fails() {
    let events = vec![Event::StartElement {
        local_name: "include".to_string(),
        namespace: Some(XINCLUDE_NAMESPACE.to_string()),
        attributes: vec![],
    }];
    assert_eq!(
        IndexBuilder::build_from(&events, StrMap::new()).err(),
        Some(ExtractError::UnsupportedInclude)
    );
}

#[test]
fn include_in_other_namespace_is_fine() {
    let events = vec![open("include"), close("include")];
    assert!(IndexBuilder::build_from(&events, StrMap::new()).is_ok());
}

#[test]
fn identifier_text_is_cleared_on_close() {
    let events = vec![
        open("root"),
        open_id("p", "same"),
        text("one"),
        close("p"),
        open_id("p", "same"),
        text("two"),
        close("p"),
        close("root"),
    ];
    let idx = IndexBuilder::build_from(&events, files(&[("same", "s.html")])).unwrap();
    let docs = stored(&idx);
    assert_eq!(docs.get("s.html#same").unwrap().get("body").unwrap().as_str().unwrap(), " two");
}

#[test]
fn labels_compose() {
    let h = "Head".to_string();
    let t = "Term".to_string();
    assert_eq!(compose_label(Some(&h), Some(&t)), "Head: Term");
    assert_eq!(compose_label(Some(&h), None), "Head");
    assert_eq!(compose_label(None, Some(&t)), "Term");
    assert_eq!(compose_label(None, None), "");
}

#[test]
fn keys_join_file_and_id() {
    assert_eq!(make_key(&"dir/ch1.html".to_string(), &"intro".to_string()), "dir/ch1.html#intro");
}

#[test]
fn empty_walk_builds_empty_index() {
    let idx = IndexBuilder::build_from(&vec![], StrMap::new()).unwrap();
    assert_eq!(stored(&idx).as_object().unwrap().len(), 0);
}
