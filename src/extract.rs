//! The extraction engine: one pass over the events, one index document per
//! closed identifier.
use crate::builders::{
    collector_dived, collector_finished, collector_interrupted, collector_recorded,
    collector_surfaced, entered_collector, idle_collector, opt_view, term_surfaced, Collector,
    TermBuilder, TitleBuilder,
};
use crate::markup::{
    element_id, namespace_is, str_is, xml_id_of, Attribute, Event, XINCLUDE_NAMESPACE,
};
use crate::scope::{closed_by_surface, dived, op_allowed, surfaced, ScopeOp, StackPosition};
use crate::strmap::StrMap;
use vstd::prelude::*;
use vstd::string::*;

verus! {

/// The full-text index of `elasticlunr`, carried through opaque.
#[verifier::external_type_specification]
#[verifier::external_body]
pub struct ExIndex(elasticlunr::Index);

/// The documents an index's document store holds: for each reference, the
/// values of its "title" and "body" fields.
pub uninterp spec fn stored_docs(idx: elasticlunr::Index) -> Map<Seq<char>, (Seq<char>, Seq<char>)>;

/// The index has exactly the fields "title" and "body", in that order, and
/// keeps the documents added to it.
pub uninterp spec fn title_body_layout(idx: elasticlunr::Index) -> bool;

/// Relies on `elasticlunr::Index::new`: an index over the fields "title" and
/// "body" that holds no document yet and saves the documents added to it.
#[verifier::external_body]
fn new_index() -> (r: elasticlunr::Index)
    ensures
        stored_docs(r).dom() == Set::<Seq<char>>::empty(),
        title_body_layout(r),
{
    elasticlunr::Index::new(&["title", "body"])
}

/// Relies on `elasticlunr::Index::add_doc`: the document store then holds the
/// two field values under `doc_ref`, in place of any earlier document there,
/// and the fields and the saving of documents stay as they were. It indexes
/// one value per field, so it is handed no more values than fields.
#[verifier::external_body]
fn add_doc(idx: &mut elasticlunr::Index, doc_ref: &String, title: &String, body: &String)
    requires
        title_body_layout(*old(idx)),
    ensures
        stored_docs(*final(idx)) == stored_docs(*old(idx)).insert(doc_ref@, (title@, body@)),
        title_body_layout(*final(idx)),
{
    idx.add_doc(doc_ref, &[title.as_str(), body.as_str()])
}

/// A violation of the shape the engine relies on; it ends the run.
#[derive(Debug, Clone, Copy, PartialEq, Eq)]
pub enum ExtractError {
    /// A heading starts inside a heading.
    NestedTitle,
    /// A term starts inside a term.
    NestedTerm,
    /// An XInclude element, which is not supported.
    UnsupportedInclude,
    /// A depth counter would overflow.
    TooDeep,
}

/// What handling one event led to.
#[derive(Debug, PartialEq, Eq)]
pub enum Emission {
    Nothing,
    /// A document was added to the index.
    Indexed { id: String, key: String, label: String },
    /// An identifier closed with no text.
    NoText { id: String },
    /// An identifier closed that the file map does not know.
    Orphan { id: String, label: String, text: String },
    /// Text came with no identifier open and was dropped.
    TextDropped { text: String },
}

pub ghost enum Outcome {
    Nothing,
    Indexed { id: Seq<char>, key: Seq<char>, label: Seq<char> },
    NoText { id: Seq<char> },
    Orphan { id: Seq<char>, label: Seq<char>, text: Seq<char> },
    TextDropped { text: Seq<char> },
}

impl View for Emission {
    type V = Outcome;

    open spec fn view(&self) -> Outcome {
        match self {
            Emission::Nothing => Outcome::Nothing,
            Emission::Indexed { id, key, label } => Outcome::Indexed {
                id: id@,
                key: key@,
                label: label@,
            },
            Emission::NoText { id } => Outcome::NoText { id: id@ },
            Emission::Orphan { id, label, text } => Outcome::Orphan {
                id: id@,
                label: label@,
                text: text@,
            },
            Emission::TextDropped { text } => Outcome::TextDropped { text: text@ },
        }
    }
}

/// The state of a walk: the identifier scopes and their text, the heading and
/// term collectors with their published histories, whether the term being
/// collected continues the last published one, the file map and the
/// documents indexed so far.
pub ghost struct Walk {
    pub ids: Seq<(Seq<char>, u64)>,
    pub id_text: Map<Seq<char>, Seq<char>>,
    pub heading: Collector,
    pub titles: Seq<(Seq<char>, u64)>,
    pub term: Collector,
    pub terms: Seq<(Seq<char>, u64)>,
    pub continuing_term: bool,
    pub file_map: Map<Seq<char>, Seq<char>>,
    pub docs: Map<Seq<char>, (Seq<char>, Seq<char>)>,
}

pub open spec fn frames_view(s: Seq<(String, u64)>) -> Seq<(Seq<char>, u64)> {
    s.map_values(|f: (String, u64)| (f.0@, f.1))
}

pub open spec fn top_of(s: Seq<(Seq<char>, u64)>) -> Option<Seq<char>> {
    if s.len() == 0 {
        None
    } else {
        Some(s.last().0)
    }
}

/// Every open frame has a positive counter.
pub open spec fn all_open(s: Seq<(Seq<char>, u64)>) -> bool {
    forall|i: int| 0 <= i < s.len() ==> #[trigger] s[i].1 >= 1
}

pub open spec fn walk_wf(w: Walk) -> bool {
    &&& all_open(w.ids)
    &&& all_open(w.titles)
    &&& all_open(w.terms)
}

/// The walk before the first event.
pub open spec fn initial_walk(file_map: Map<Seq<char>, Seq<char>>) -> Walk {
    Walk {
        ids: Seq::empty(),
        id_text: Map::empty(),
        heading: idle_collector(),
        titles: Seq::empty(),
        term: idle_collector(),
        terms: Seq::empty(),
        continuing_term: false,
        file_map,
        docs: Map::empty(),
    }
}

/// The label of a document: "heading: term", or whichever of the two is
/// there, or nothing.
pub open spec fn label_of(heading: Option<Seq<char>>, term: Option<Seq<char>>) -> Seq<char> {
    match (heading, term) {
        (Some(h), Some(t)) => h + seq![':', ' '] + t,
        (Some(h), None) => h,
        (None, Some(t)) => t,
        (None, None) => Seq::empty(),
    }
}

/// The reference of a document: "file#identifier".
pub open spec fn key_of(file: Seq<char>, id: Seq<char>) -> Seq<char> {
    file + seq!['#'] + id
}

pub open spec fn has_room(s: Seq<(Seq<char>, u64)>) -> bool {
    s.len() > 0 ==> s.last().1 < u64::MAX
}

/// The error a start of element `name` in namespace `ns` meets, if any.
pub open spec fn start_error(w: Walk, name: Seq<char>, ns: Option<Seq<char>>) -> Option<
    ExtractError,
> {
    if w.heading.collecting && name == "title"@ {
        Some(ExtractError::NestedTitle)
    } else if name == "term"@ && w.term.collecting {
        Some(ExtractError::NestedTerm)
    } else if name == "include"@ && ns == Some(XINCLUDE_NAMESPACE@) {
        Some(ExtractError::UnsupportedInclude)
    } else if !(has_room(w.ids) && has_room(w.titles) && has_room(w.terms) && w.heading.level
        < u64::MAX && w.term.level < u64::MAX) {
        Some(ExtractError::TooDeep)
    } else {
        None
    }
}

/// The walk after the start of element `name` carrying identifier `id`.
pub open spec fn after_start(w: Walk, name: Seq<char>, id: Option<Seq<char>>) -> Walk {
    let is_term = name == "term"@;
    Walk {
        heading: if w.heading.collecting {
            collector_dived(w.heading)
        } else if name == "title"@ {
            entered_collector()
        } else {
            w.heading
        },
        term: if is_term {
            entered_collector()
        } else {
            collector_interrupted(collector_dived(w.term))
        },
        // a term that starts right after the last one closed continues it
        continuing_term: if is_term {
            w.term.adjacent
        } else {
            w.continuing_term
        },
        ids: dived(
            match id {
                Some(v) => w.ids.push(
                    (
                        v,
                        if is_term {
                            1u64
                        } else {
                            0u64
                        },
                    ),
                ),
                None => w.ids,
            },
        ),
        titles: dived(w.titles),
        terms: dived(w.terms),
        ..w
    }
}

/// The documents after identifier `id` closes with histories as in `w`.
pub open spec fn docs_on_close(w: Walk, id: Seq<char>) -> Map<Seq<char>, (Seq<char>, Seq<char>)> {
    if w.id_text.contains_key(id) && w.file_map.contains_key(id) {
        w.docs.insert(
            key_of(w.file_map[id], id),
            (label_of(top_of(w.titles), top_of(w.terms)), w.id_text[id]),
        )
    } else {
        w.docs
    }
}

pub open spec fn outcome_on_close(w: Walk, id: Seq<char>) -> Outcome {
    let label = label_of(top_of(w.titles), top_of(w.terms));
    if !w.id_text.contains_key(id) {
        Outcome::NoText { id }
    } else if w.file_map.contains_key(id) {
        Outcome::Indexed { id, key: key_of(w.file_map[id], id), label }
    } else {
        Outcome::Orphan { id, label, text: w.id_text[id] }
    }
}

/// The term history after term `t` closes: a term that continues the last
/// one extends the top entry, any other is published with two levels to go.
pub open spec fn publish_term(terms: Seq<(Seq<char>, u64)>, t: Seq<char>, continuing: bool) -> Seq<
    (Seq<char>, u64),
> {
    if continuing && terms.len() > 0 {
        terms.update(terms.len() - 1, (terms.last().0 + t, terms.last().1))
    } else {
        terms.push((t, 2u64))
    }
}

/// The walk after an end of element, before the histories surface: a heading
/// that closes is published with two levels to go, a term that closes as
/// `publish_term` says.
pub open spec fn end_published(w: Walk) -> Walk {
    Walk {
        heading: collector_surfaced(w.heading),
        titles: match collector_finished(w.heading) {
            Some(t) => w.titles.push((t, 2u64)),
            None => w.titles,
        },
        term: term_surfaced(w.term),
        terms: match collector_finished(w.term) {
            Some(t) => publish_term(w.terms, t, w.continuing_term),
            None => w.terms,
        },
        continuing_term: match collector_finished(w.term) {
            Some(_) => false,
            None => w.continuing_term,
        },
        ids: surfaced(w.ids),
        ..w
    }
}

pub open spec fn after_end(w: Walk) -> Walk {
    let p = end_published(w);
    match closed_by_surface(w.ids) {
        Some(id) => Walk {
            titles: surfaced(p.titles),
            terms: surfaced(p.terms),
            id_text: p.id_text.remove(id),
            docs: docs_on_close(p, id),
            ..p
        },
        None => Walk { titles: surfaced(p.titles), terms: surfaced(p.terms), ..p },
    }
}

pub open spec fn end_outcome(w: Walk) -> Outcome {
    match closed_by_surface(w.ids) {
        Some(id) => outcome_on_close(end_published(w), id),
        None => Outcome::Nothing,
    }
}

/// Text goes to the heading being collected, else to the term being
/// collected, else, after a space, to the innermost open identifier. In any
/// case the last term is no longer adjacent.
pub open spec fn after_text(v: Walk, s: Seq<char>) -> Walk {
    let w = Walk { term: collector_interrupted(v.term), ..v };
    if w.heading.collecting {
        Walk { heading: collector_recorded(w.heading, s), ..w }
    } else if w.term.collecting {
        Walk { term: collector_recorded(w.term, s), ..w }
    } else if w.ids.len() > 0 {
        let id = w.ids.last().0;
        let before = if w.id_text.contains_key(id) {
            w.id_text[id]
        } else {
            Seq::empty()
        };
        Walk { id_text: w.id_text.insert(id, before + seq![' '] + s), ..w }
    } else {
        w
    }
}

pub open spec fn text_kept(w: Walk) -> bool {
    w.heading.collecting || w.term.collecting || w.ids.len() > 0
}

/// One event.
pub open spec fn step(w: Walk, e: Event) -> Result<Walk, ExtractError> {
    match e {
        Event::StartElement { local_name, namespace, attributes } => match start_error(
            w,
            local_name@,
            opt_view(namespace),
        ) {
            Some(err) => Err(err),
            None => Ok(after_start(w, local_name@, xml_id_of(attributes@))),
        },
        Event::EndElement { .. } => Ok(after_end(w)),
        Event::Characters(s) => Ok(after_text(w, s@)),
    }
}

pub open spec fn step_outcome(w: Walk, e: Event) -> Outcome {
    match e {
        Event::StartElement { .. } => Outcome::Nothing,
        Event::EndElement { .. } => end_outcome(w),
        Event::Characters(s) => if text_kept(w) {
            Outcome::Nothing
        } else {
            Outcome::TextDropped { text: s@ }
        },
    }
}

/// The events in order, up to the first error.
pub open spec fn walk(w: Walk, events: Seq<Event>) -> Result<Walk, ExtractError>
    decreases events.len(),
{
    if events.len() == 0 {
        Ok(w)
    } else {
        match walk(w, events.drop_last()) {
            Ok(v) => step(v, events.last()),
            Err(e) => Err(e),
        }
    }
}

proof fn lemma_frames_view(s: Seq<(String, u64)>)
    ensures
        frames_view(dived(s)) == dived(frames_view(s)),
        frames_view(surfaced(s)) == surfaced(frames_view(s)),
        opt_view(closed_by_surface(s)) == closed_by_surface(frames_view(s)),
        has_room(frames_view(s)) == op_allowed(s, ScopeOp::Dive),
        op_allowed(s, ScopeOp::Surface) == (frames_view(s).len() > 0 ==> frames_view(s).last().1
            > 0),
        frames_view(s).len() == s.len(),
        s.len() > 0 ==> top_of(frames_view(s)) == Some(s.last().0@),
        s.len() == 0 ==> top_of(frames_view(s)) is None,
{
    if s.len() > 0 {
        assert(frames_view(dived(s)) =~= dived(frames_view(s)));
        assert(frames_view(surfaced(s)) =~= surfaced(frames_view(s)));
    }
}

proof fn lemma_frames_replace(s: Seq<(String, u64)>, v: String)
    requires
        s.len() > 0,
    ensures
        frames_view(s.update(s.len() - 1, (v, s.last().1))) == frames_view(s).update(
            s.len() - 1,
            (v@, s.last().1),
        ),
{
    assert(frames_view(s.update(s.len() - 1, (v, s.last().1))) =~= frames_view(s).update(
        s.len() - 1,
        (v@, s.last().1),
    ));
}

proof fn lemma_frames_push(s: Seq<(String, u64)>, v: String, c: u64)
    ensures
        frames_view(s.push((v, c))) == frames_view(s).push((v@, c)),
{
    assert(frames_view(s.push((v, c))) =~= frames_view(s).push((v@, c)));
}

/// The text that comes while an identifier is open, and no heading or term is
/// being collected, is added to that innermost identifier alone: every other
/// identifier, the outer ones included, keeps exactly the text it had.
pub proof fn lemma_text_goes_to_innermost(w: Walk, s: Seq<char>)
    requires
        w.ids.len() > 0,
        !w.heading.collecting,
        !w.term.collecting,
    ensures
        after_text(w, s).id_text.contains_key(w.ids.last().0),
        after_text(w, s).id_text[w.ids.last().0] == (if w.id_text.contains_key(w.ids.last().0) {
            w.id_text[w.ids.last().0]
        } else {
            Seq::empty()
        }) + seq![' '] + s,
        forall|k: Seq<char>|
            k != w.ids.last().0 ==> (#[trigger] after_text(w, s).id_text.contains_key(k)
                == w.id_text.contains_key(k) && (w.id_text.contains_key(k) ==> after_text(
                w,
                s,
            ).id_text[k] == w.id_text[k])),
{
}

/// Closing an identifier that the file map does not know adds no document:
/// the end of the element succeeds, the index is unchanged, and the closure
/// is reported as an orphan, or as having no text when it had none.
pub proof fn lemma_orphan_adds_no_document(w: Walk, e: Event)
    requires
        e is EndElement,
        closed_by_surface(w.ids) matches Some(id) && !w.file_map.contains_key(id),
    ensures
        step(w, e) == Ok::<Walk, ExtractError>(after_end(w)),
        after_end(w).docs == w.docs,
        closed_by_surface(w.ids) matches Some(id) && (if w.id_text.contains_key(id) {
            end_outcome(w) is Orphan
        } else {
            end_outcome(w) is NoText
        }),
{
}

/// A term ends with its own element: at the end of the element that opened
/// it, the term stops collecting, its text is published (or joined to the
/// entry it continues), and text that comes next is not added to it.
pub proof fn lemma_term_ends_with_its_element(w: Walk, s: Seq<char>)
    requires
        w.term.collecting,
        w.term.level == 1,
    ensures
        !after_end(w).term.collecting,
        after_end(w).term.adjacent,
        end_published(w).terms == publish_term(w.terms, w.term.text, w.continuing_term),
        !after_text(after_end(w), s).term.collecting,
        after_text(after_end(w), s).term.text == Seq::<char>::empty(),
{
}

/// Terms merge only when adjacent: a term that starts after any other
/// element has started, or after any text, begins a new history entry; one
/// that starts right after a term closed continues it.
pub proof fn lemma_intervening_content_prevents_merge(
    w: Walk,
    name: Seq<char>,
    id: Option<Seq<char>>,
    s: Seq<char>,
    tid: Option<Seq<char>>,
)
    requires
        name != "term"@,
    ensures
        !after_start(after_start(w, name, id), "term"@, tid).continuing_term,
        !after_start(after_text(w, s), "term"@, tid).continuing_term,
        after_start(after_end(w), "term"@, tid).continuing_term == (w.term.collecting
            && w.term.level == 1),
{
}

/// Once the walk has failed, later events do not change the error.
proof fn lemma_walk_stays_failed(w: Walk, events: Seq<Event>, n: int)
    requires
        0 <= n <= events.len(),
        walk(w, events.subrange(0, n)) is Err,
    ensures
        walk(w, events) == walk(w, events.subrange(0, n)),
    decreases events.len() - n,
{
    if n < events.len() {
        assert(events.subrange(0, n + 1).drop_last() =~= events.subrange(0, n));
        lemma_walk_stays_failed(w, events, n + 1);
    } else {
        assert(events.subrange(0, n) =~= events);
    }
}

/// Collects index documents from the events of one document.
pub struct IndexBuilder {
    index: elasticlunr::Index,
    ids: StackPosition<String>,
    id_text: StrMap,
    title_builder: TitleBuilder,
    titles: StackPosition<String>,
    term_builder: TermBuilder,
    terms: StackPosition<String>,
    continuing_term: bool,
    file_map: StrMap,
}

impl View for IndexBuilder {
    type V = Walk;

    closed spec fn view(&self) -> Walk {
        Walk {
            ids: frames_view(self.ids@),
            id_text: self.id_text@,
            heading: self.title_builder@,
            titles: frames_view(self.titles@),
            term: self.term_builder@,
            terms: frames_view(self.terms@),
            continuing_term: self.continuing_term,
            file_map: self.file_map@,
            docs: stored_docs(self.index),
        }
    }
}

/// The label for a heading and a term, as `label_of` gives it.
pub fn compose_label(heading: Option<&String>, term: Option<&String>) -> (r: String)
    ensures
        r@ == label_of(
            match heading {
                Some(h) => Some(h@),
                None => None,
            },
            match term {
                Some(t) => Some(t@),
                None => None,
            },
        ),
{
    proof {
        reveal_strlit(": ");
        assert(": "@ =~= seq![':', ' ']);
    }
    match (heading, term) {
        (Some(h), Some(t)) => h.clone().concat(": ").concat(t.as_str()),
        (Some(h), None) => h.clone(),
        (None, Some(t)) => t.clone(),
        (None, None) => String::new(),
    }
}

/// The reference of the document for identifier `id` in file `file`.
pub fn make_key(file: &String, id: &String) -> (r: String)
    ensures
        r@ == key_of(file@, id@),
{
    proof {
        reveal_strlit("#");
        assert("#"@ =~= seq!['#']);
    }
    file.clone().concat("#").concat(id.as_str())
}

impl IndexBuilder {
    pub closed spec fn wf(&self) -> bool {
        &&& self.title_builder.wf()
        &&& self.term_builder.wf()
        &&& self.id_text.wf()
        &&& self.file_map.wf()
        &&& title_body_layout(self.index)
        &&& walk_wf(self@)
    }

    /// An engine with nothing open, looking file names up in `file_map`.
    pub fn new(file_map: StrMap) -> (r: IndexBuilder)
        requires
            file_map.wf(),
        ensures
            r.wf(),
            r@ == initial_walk(file_map@),
    {
        let r = IndexBuilder {
            index: new_index(),
            ids: StackPosition::new(),
            id_text: StrMap::new(),
            title_builder: TitleBuilder::new(),
            titles: StackPosition::new(),
            term_builder: TermBuilder::new(),
            terms: StackPosition::new(),
            continuing_term: false,
            file_map,
        };
        proof {
            assert(frames_view(Seq::<(String, u64)>::empty()) =~= Seq::empty());
            assert(stored_docs(r.index) =~= Map::empty());
        }
        r
    }


    /// Handles the start of an element.
    pub fn handle_start_element(
        &mut self,
        local_name: &String,
        namespace: &Option<String>,
        attributes: &Vec<Attribute>,
    ) -> (r: Result<(), ExtractError>)
        requires
            old(self).wf(),
        ensures
            final(self).wf(),
            match start_error(old(self)@, local_name@, opt_view(*namespace)) {
                Some(e) => r == Err::<(), ExtractError>(e) && final(self)@ == old(self)@,
                None => r is Ok && final(self)@ == after_start(
                    old(self)@,
                    local_name@,
                    xml_id_of(attributes@),
                ),
            },
    {
        proof {
            reveal_strlit("title");
            reveal_strlit("term");
            reveal_strlit("include");
            lemma_frames_view(self.ids@);
            lemma_frames_view(self.titles@);
            lemma_frames_view(self.terms@);
        }
        let is_title = str_is(local_name, "title");
        let is_term = str_is(local_name, "term");
        let in_title = self.title_builder.in_title();
        if in_title && is_title {
            return Err(ExtractError::NestedTitle);
        }
        if is_term && self.term_builder.in_term() {
            return Err(ExtractError::NestedTerm);
        }
        if str_is(local_name, "include") && namespace_is(namespace, XINCLUDE_NAMESPACE) {
            return Err(ExtractError::UnsupportedInclude);
        }
        if !(self.ids.has_room() && self.titles.has_room() && self.terms.has_room()
            && self.title_builder.has_room() && self.term_builder.has_room()) {
            return Err(ExtractError::TooDeep);
        }
        let ghost w = self@;

        if in_title {
            self.title_builder.dive();
        } else if is_title {
            self.title_builder.enter();
        }

        if is_term {
            let continues = self.term_builder.sibling_to_term();
            self.term_builder.enter();
            self.continuing_term = continues;
        } else {
            if self.term_builder.in_term() {
                self.term_builder.dive();
            }
            self.term_builder.interrupt();
        }

        let ghost ids0 = self.ids@;
        let id = element_id(attributes);
        match id {
            Some(id) => {
                proof {
                    lemma_frames_push(ids0, id, 0);
                }
                self.ids.enter(id);
                if is_term {
                    proof {
                        lemma_frames_view(self.ids@);
                    }
                    self.ids.dive();
                }
            },
            None => {},
        }
        proof {
            lemma_frames_view(self.ids@);
        }
        self.ids.dive();
        self.titles.dive();
        self.terms.dive();
        proof {
            let n = xml_id_of(attributes@);
            assert(self@.heading == after_start(w, local_name@, n).heading);
            assert(self@.term == after_start(w, local_name@, n).term);
            assert(self@.ids =~= after_start(w, local_name@, n).ids);
            assert(self@ == after_start(w, local_name@, n));
        }
        Ok(())
    }


    /// Hands the closed identifier `id` to the index: its text is taken out,
    /// labelled with the nearest heading and term, and stored under its file.
    fn emit(&mut self, id: String) -> (r: Emission)
        requires
            old(self).id_text.wf(),
            old(self).file_map.wf(),
            title_body_layout(old(self).index),
        ensures
            final(self).id_text.wf(),
            final(self).file_map.wf(),
            title_body_layout(final(self).index),
            final(self)@ == (Walk {
                id_text: old(self)@.id_text.remove(id@),
                docs: docs_on_close(old(self)@, id@),
                ..old(self)@
            }),
            r@ == outcome_on_close(old(self)@, id@),
            final(self).title_builder == old(self).title_builder,
            final(self).term_builder == old(self).term_builder,
    {
        proof {
            lemma_frames_view(self.titles@);
            lemma_frames_view(self.terms@);
        }
        match self.id_text.remove(&id) {
            None => Emission::NoText { id },
            Some(text) => {
                let label = compose_label(self.titles.current(), self.terms.current());
                match self.file_map.get(&id) {
                    Some(file) => {
                        let key = make_key(file, &id);
                        add_doc(&mut self.index, &key, &label, &text);
                        Emission::Indexed { id, key, label }
                    },
                    None => Emission::Orphan { id, label, text },
                }
            },
        }
    }

    /// Handles the end of an element.
    pub fn handle_end_element(&mut self) -> (r: Emission)
        requires
            old(self).wf(),
        ensures
            final(self).wf(),
            final(self)@ == after_end(old(self)@),
            r@ == end_outcome(old(self)@),
    {
        let ghost w = self@;
        if let Some(title) = self.title_builder.surface() {
            proof {
                lemma_frames_push(self.titles@, title, 0);
            }
            self.titles.enter(title);
            proof {
                lemma_frames_view(self.titles@);
            }
            self.titles.dive();
            proof {
                lemma_frames_view(self.titles@);
            }
            self.titles.dive();
        }
        if let Some(term) = self.term_builder.surface() {
            let top = self.terms.current();
            if self.continuing_term && top.is_some() {
                let joined = top.unwrap().clone().concat(term.as_str());
                proof {
                    lemma_frames_replace(self.terms@, joined);
                }
                self.terms.replace_top(joined);
            } else {
                proof {
                    lemma_frames_push(self.terms@, term, 0);
                }
                self.terms.enter(term);
                proof {
                    lemma_frames_view(self.terms@);
                }
                self.terms.dive();
                proof {
                    lemma_frames_view(self.terms@);
                }
                self.terms.dive();
            }
            self.continuing_term = false;
        }
        proof {
            lemma_frames_view(self.ids@);
        }
        let outcome = match self.ids.surface() {
            Some(id) => self.emit(id),
            None => Emission::Nothing,
        };
        proof {
            lemma_frames_view(self.titles@);
            lemma_frames_view(self.terms@);
        }
        self.titles.surface();
        self.terms.surface();
        proof {
            assert(self@.titles =~= after_end(w).titles);
            assert(self@.terms =~= after_end(w).terms);
            assert(self@ == after_end(w));
        }
        outcome
    }


    /// Handles text: it goes to the heading or term being collected, else to
    /// the innermost open identifier. Returns whether it was kept.
    pub fn handle_characters(&mut self, text: String) -> (r: bool)
        requires
            old(self).wf(),
        ensures
            final(self).wf(),
            final(self)@ == after_text(old(self)@, text@),
            r == text_kept(old(self)@),
    {
        proof {
            lemma_frames_view(self.ids@);
        }
        self.term_builder.interrupt();
        if self.title_builder.in_title() {
            self.title_builder.record(text.as_str());
            true
        } else if self.term_builder.in_term() {
            self.term_builder.record(text.as_str());
            true
        } else {
            match self.ids.current() {
                Some(id) => {
                    let id = id.clone();
                    self.id_text.append_spaced(&id, text.as_str());
                    true
                },
                None => false,
            }
        }
    }

    /// Handles one event. An error leaves the engine as it was.
    pub fn handle_event(&mut self, event: &Event) -> (r: Result<Emission, ExtractError>)
        requires
            old(self).wf(),
        ensures
            final(self).wf(),
            match step(old(self)@, *event) {
                Ok(w) => r matches Ok(em) && final(self)@ == w && em@ == step_outcome(
                    old(self)@,
                    *event,
                ),
                Err(e) => r matches Err(x) && x == e && final(self)@ == old(self)@,
            },
    {
        match event {
            Event::StartElement { local_name, namespace, attributes } => {
                match self.handle_start_element(local_name, namespace, attributes) {
                    Ok(()) => Ok(Emission::Nothing),
                    Err(e) => Err(e),
                }
            },
            Event::EndElement { .. } => Ok(self.handle_end_element()),
            Event::Characters(text) => {
                if self.handle_characters(text.clone()) {
                    Ok(Emission::Nothing)
                } else {
                    Ok(Emission::TextDropped { text: text.clone() })
                }
            },
        }
    }

    /// Builds the index of the documents of `events`, looking file names up
    /// in `file_map`; the first error ends the run.
    pub fn build_from(events: &Vec<Event>, file_map: StrMap) -> (r: Result<
        elasticlunr::Index,
        ExtractError,
    >)
        requires
            file_map.wf(),
        ensures
            match walk(initial_walk(file_map@), events@) {
                Ok(w) => r matches Ok(idx) && stored_docs(idx) == w.docs,
                Err(e) => r matches Err(x) && x == e,
            },
    {
        let ghost fm = file_map@;
        let mut builder = IndexBuilder::new(file_map);
        let ghost w0 = builder@;
        assert(w0 == initial_walk(fm));
        let mut i: usize = 0;
        while i < events.len()
            invariant
                i <= events@.len(),
                builder.wf(),
                w0 == initial_walk(fm),
                fm == file_map@,
                walk(w0, events@.subrange(0, i as int)) == Ok::<Walk, ExtractError>(builder@),
            decreases events@.len() - i,
        {
            let ghost before = builder@;
            proof {
                assert(events@.subrange(0, i + 1).drop_last() =~= events@.subrange(0, i as int));
                assert(walk(w0, events@.subrange(0, i + 1)) == step(before, events@[i as int]));
            }
            match builder.handle_event(&events[i]) {
                Ok(_) => {},
                Err(e) => {
                    proof {
                        lemma_walk_stays_failed(w0, events@, i as int + 1);
                    }
                    return Err(e);
                },
            }
            i = i + 1;
        }
        proof {
            assert(events@.subrange(0, events@.len() as int) =~= events@);
        }
        Ok(builder.into_index())
    }

    /// The index built so far.
    pub fn into_index(self) -> (r: elasticlunr::Index)
        ensures
            stored_docs(r) == self@.docs,
    {
        self.index
    }
}

} // verus!
