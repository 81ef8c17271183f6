use docbook_index::builders::{TermBuilder, TitleBuilder};
use docbook_index::fileindex::IndexMap;
use docbook_index::markup::{element_id, get_attr, Attribute, Event, XML_NAMESPACE};
use docbook_index::scope::StackPosition;
use docbook_index::strmap::StrMap;

fn attr(name: &str, ns: Option<&str>, value: &str) -> Attribute {
    Attribute {
        local_name: name.to_string(),
        namespace: ns.map(|s| s.to_string()),
        value: value.to_string(),
    }
}

#[test]
fn stack_closes_when_counter_returns_to_zero() {
    let mut s: StackPosition<&str> = StackPosition::new();
    assert_eq!(s.current(), None);
    s.enter("a");
    s.dive();
    s.dive();
    assert_eq!(s.depth(), Some(2));
    assert_eq!(s.surface(), None);
    assert_eq!(s.current(), Some(&"a"));
    assert_eq!(s.surface(), Some("a"));
    assert_eq!(s.current(), None);
    assert_eq!(s.depth(), None);
}

#[test]
fn surface_on_empty_stack_does_nothing() {
    let mut s: StackPosition<u8> = StackPosition::new();
    assert_eq!(s.surface(), None);
    s.dive();
    assert_eq!(s.depth(), None);
    assert!(s.has_room());
}

#[test]
fn balanced_walk_closes_every_frame() {
    // <x id=1><y><z id=2></z></y></x>: one dive per element entered, one
    // surface per element left.
    let mut s: StackPosition<u32> = StackPosition::new();
    let mut dives = 0;
    let mut decrements = 0;
    s.enter(1);
    s.dive();
    dives += 1;
    s.dive();
    dives += 1;
    s.enter(2);
    s.dive();
    dives += 1;
    for expected in [Some(2), None, Some(1)] {
        assert_eq!(s.surface(), expected);
        decrements += 1;
    }
    assert_eq!(s.current(), None);
    assert_eq!(dives, decrements);
}

#[test]
fn title_builder_collects_one_heading() {
    let mut t = TitleBuilder::new();
    assert!(!t.in_title());
    t.enter();
    t.record("Over");
    t.dive();
    t.record("view");
    assert_eq!(t.surface(), None);
    assert!(t.in_title());
    assert_eq!(t.surface(), Some("Overview".to_string()));
    assert!(!t.in_title());
}

#[test]
fn term_builder_closes_at_own_end() {
    let mut t = TermBuilder::new();
    assert!(!t.sibling_to_term());
    t.enter();
    t.record("Fo");
    t.dive();
    t.record("o");
    assert_eq!(t.surface(), None);
    assert!(!t.sibling_to_term());
    assert_eq!(t.surface(), Some("Foo".to_string()));
    assert!(!t.in_term());
    assert!(t.sibling_to_term());
    t.enter();
    assert!(!t.sibling_to_term());
}

#[test]
fn term_builder_adjacency_is_broken() {
    let mut t = TermBuilder::new();
    t.enter();
    assert_eq!(t.surface(), Some("".to_string()));
    assert!(t.sibling_to_term());
    t.interrupt();
    assert!(!t.sibling_to_term());
    t.enter();
    assert_eq!(t.surface(), Some("".to_string()));
    assert!(t.sibling_to_term());
    assert_eq!(t.surface(), None);
    assert!(!t.sibling_to_term());
}

#[test]
fn strmap_basics() {
    let mut m = StrMap::new();
    assert_eq!(m.len(), 0);
    m.insert("a".to_string(), "1".to_string());
    m.insert("b".to_string(), "2".to_string());
    m.insert("a".to_string(), "3".to_string());
    assert_eq!(m.len(), 2);
    assert_eq!(m.get(&"a".to_string()), Some(&"3".to_string()));
    m.append_spaced(&"b".to_string(), "x");
    m.append_spaced(&"c".to_string(), "y");
    assert_eq!(m.get(&"b".to_string()), Some(&"2 x".to_string()));
    assert_eq!(m.get(&"c".to_string()), Some(&" y".to_string()));
    assert_eq!(m.remove(&"a".to_string()), Some("3".to_string()));
    assert_eq!(m.remove(&"a".to_string()), None);
    assert_eq!(m.get(&"a".to_string()), None);
    let mut e = m.entries();
    e.sort();
    assert_eq!(
        e,
        vec![("b".to_string(), "2 x".to_string()), ("c".to_string(), " y".to_string())]
    );
}

#[test]
fn get_attr_takes_first_match() {
    let attrs = vec![attr("class", None, "c"), attr("id", None, "one"), attr("id", None, "two")];
    assert_eq!(get_attr("id", &attrs), Some("one"));
    assert_eq!(get_attr("lang", &attrs), None);
}

#[test]
fn element_id_needs_xml_namespace() {
    let plain = vec![attr("id", None, "x")];
    assert_eq!(element_id(&plain), None);
    let xml = vec![attr("id", None, "x"), attr("id", Some(XML_NAMESPACE), "y")];
    assert_eq!(element_id(&xml), Some("y".to_string()));
}

#[test]
fn parse_lists_ids_in_order() {
    let events = vec![
        Event::StartElement {
            local_name: "div".to_string(),
            namespace: None,
            attributes: vec![attr("id", None, "a")],
        },
        Event::Characters("t".to_string()),
        Event::StartElement { local_name: "p".to_string(), namespace: None, attributes: vec![] },
        Event::EndElement { local_name: "p".to_string() },
        Event::StartElement {
            local_name: "span".to_string(),
            namespace: None,
            attributes: vec![attr("id", Some(XML_NAMESPACE), "b")],
        },
        Event::EndElement { local_name: "span".to_string() },
        Event::EndElement { local_name: "div".to_string() },
    ];
    assert_eq!(IndexMap::parse(&events), vec!["a".to_string(), "b".to_string()]);
}

#[test]
fn later_file_wins() {
    let mut m = StrMap::new();
    IndexMap::add_file(&mut m, &"one.html".to_string(), &vec!["x".to_string(), "y".to_string()]);
    IndexMap::add_file(&mut m, &"two.html".to_string(), &vec!["y".to_string()]);
    assert_eq!(m.get(&"x".to_string()), Some(&"one.html".to_string()));
    assert_eq!(m.get(&"y".to_string()), Some(&"two.html".to_string()));
    assert_eq!(m.len(), 2);
}
