//! Collectors for the text of headings and of glossary terms.
use crate::scope::StackPosition;
use vstd::prelude::*;
use vstd::string::*;

verus! {

/// What a collector holds: whether a region is being collected, its depth
/// counter (zero when idle), the text so far, whether a buffer has been
/// opened yet, and whether a region has just closed with nothing since.
pub ghost struct Collector {
    pub collecting: bool,
    pub level: int,
    pub text: Seq<char>,
    pub has_buffer: bool,
    pub adjacent: bool,
}

pub open spec fn opt_view(o: Option<String>) -> Option<Seq<char>> {
    match o {
        Some(s) => Some(s@),
        None => None,
    }
}

pub open spec fn idle_collector() -> Collector {
    Collector {
        collecting: false,
        level: 0,
        text: Seq::empty(),
        has_buffer: false,
        adjacent: false,
    }
}

pub open spec fn entered_collector() -> Collector {
    Collector {
        collecting: true,
        level: 1,
        text: Seq::empty(),
        has_buffer: true,
        adjacent: false,
    }
}

pub open spec fn collector_dived(c: Collector) -> Collector {
    if c.collecting {
        Collector { level: c.level + 1, ..c }
    } else {
        c
    }
}

/// The region closes at the next surface: its counter is down to one.
pub open spec fn collector_closes(c: Collector) -> bool {
    c.collecting && c.level == 1
}

pub open spec fn collector_surfaced(c: Collector) -> Collector {
    if collector_closes(c) {
        Collector { collecting: false, level: 0, text: Seq::empty(), has_buffer: true, ..c }
    } else if c.collecting {
        Collector { level: c.level - 1, ..c }
    } else {
        c
    }
}

/// The text handed out by a surface.
pub open spec fn collector_finished(c: Collector) -> Option<Seq<char>> {
    if collector_closes(c) {
        Some(c.text)
    } else {
        None
    }
}

pub open spec fn collector_recorded(c: Collector, s: Seq<char>) -> Collector {
    Collector { text: c.text + s, ..c }
}

/// A term collector after a surface: it is adjacent exactly when that
/// surface closed its region.
pub open spec fn term_surfaced(c: Collector) -> Collector {
    Collector { adjacent: collector_closes(c), ..collector_surfaced(c) }
}

/// Something came between: the collector is no longer adjacent.
pub open spec fn collector_interrupted(c: Collector) -> Collector {
    Collector { adjacent: false, ..c }
}

/// Collects the text of one heading at a time.
pub struct TitleBuilder {
    title: Option<String>,
    position: StackPosition<()>,
}

impl View for TitleBuilder {
    type V = Collector;

    closed spec fn view(&self) -> Collector {
        Collector {
            collecting: self.position@.len() > 0,
            level: if self.position@.len() > 0 {
                self.position@.last().1 as int
            } else {
                0
            },
            text: match self.title {
                Some(t) => t@,
                None => Seq::empty(),
            },
            has_buffer: self.title is Some,
            adjacent: false,
        }
    }
}

impl TitleBuilder {
    pub closed spec fn wf(&self) -> bool {
        &&& self.position@.len() <= 1
        &&& self.position@.len() > 0 ==> self.title is Some && self.position@.last().1 >= 1
    }

    pub fn new() -> (r: TitleBuilder)
        ensures
            r.wf(),
            r@ == idle_collector(),
    {
        TitleBuilder { title: None, position: StackPosition::new() }
    }

    /// Whether a `dive` is allowed now.
    pub fn has_room(&self) -> (r: bool)
        requires
            self.wf(),
        ensures
            r == (self@.level < u64::MAX),
    {
        self.position.has_room()
    }

    /// Starts collecting with an empty buffer.
    pub fn enter(&mut self)
        requires
            old(self).wf(),
            !old(self)@.collecting,
        ensures
            final(self).wf(),
            final(self)@ == entered_collector(),
    {
        self.position.enter(());
        self.title = Some(String::new());
        self.position.dive();
    }

    /// Counts an element entered while collecting.
    pub fn dive(&mut self)
        requires
            old(self).wf(),
            old(self)@.level < u64::MAX,
        ensures
            final(self).wf(),
            final(self)@ == collector_dived(old(self)@),
    {
        self.position.dive();
    }

    /// Counts an element left; when the region closes, returns its text and
    /// goes back to idle with an empty buffer.
    pub fn surface(&mut self) -> (r: Option<String>)
        requires
            old(self).wf(),
        ensures
            final(self).wf(),
            final(self)@ == collector_surfaced(old(self)@),
            opt_view(r) == collector_finished(old(self)@),
    {
        if self.in_title() && self.position.surface().is_some() {
            let title = self.title.take();
            self.title = Some(String::new());
            title
        } else {
            None
        }
    }

    /// Appends `fragment` to the buffer.
    pub fn record(&mut self, fragment: &str)
        requires
            old(self).wf(),
            old(self)@.has_buffer,
        ensures
            final(self).wf(),
            final(self)@ == collector_recorded(old(self)@, fragment@),
    {
        let mut title = self.title.take().unwrap();
        title.append(fragment);
        self.title = Some(title);
    }

    pub fn in_title(&self) -> (r: bool)
        requires
            self.wf(),
        ensures
            r == self@.collecting,
            r ==> self@.has_buffer,
    {
        self.title.is_some() && self.position.current().is_some()
    }
}

/// Collects the text of one glossary term at a time.
///
/// A term ends with its own element. It also notes whether the term just
/// closed with nothing since, so that a term starting right then can
/// continue it.
pub struct TermBuilder {
    term: Option<String>,
    position: StackPosition<()>,
    sibling: bool,
}

impl View for TermBuilder {
    type V = Collector;

    closed spec fn view(&self) -> Collector {
        Collector {
            collecting: self.position@.len() > 0,
            level: if self.position@.len() > 0 {
                self.position@.last().1 as int
            } else {
                0
            },
            text: match self.term {
                Some(t) => t@,
                None => Seq::empty(),
            },
            has_buffer: self.term is Some,
            adjacent: self.sibling,
        }
    }
}

impl TermBuilder {
    pub closed spec fn wf(&self) -> bool {
        &&& self.position@.len() <= 1
        &&& self.position@.len() > 0 ==> self.term is Some && self.position@.last().1 >= 1
    }

    pub fn new() -> (r: TermBuilder)
        ensures
            r.wf(),
            r@ == idle_collector(),
    {
        TermBuilder { term: None, position: StackPosition::new(), sibling: false }
    }

    /// Whether a `dive` is allowed now.
    pub fn has_room(&self) -> (r: bool)
        requires
            self.wf(),
        ensures
            r == (self@.level < u64::MAX),
    {
        self.position.has_room()
    }

    /// Starts collecting with an empty buffer.
    pub fn enter(&mut self)
        requires
            old(self).wf(),
            !old(self)@.collecting,
        ensures
            final(self).wf(),
            final(self)@ == entered_collector(),
    {
        self.position.enter(());
        self.term = Some(String::new());
        self.position.dive();
        self.sibling = false;
    }

    /// Counts an element entered while collecting.
    pub fn dive(&mut self)
        requires
            old(self).wf(),
            old(self)@.level < u64::MAX,
        ensures
            final(self).wf(),
            final(self)@ == collector_dived(old(self)@),
    {
        self.position.dive();
    }

    /// Counts an element left; when the region closes, returns its text and
    /// goes back to idle with an empty buffer.
    pub fn surface(&mut self) -> (r: Option<String>)
        requires
            old(self).wf(),
        ensures
            final(self).wf(),
            final(self)@ == term_surfaced(old(self)@),
            opt_view(r) == collector_finished(old(self)@),
    {
        if self.in_term() && self.position.surface().is_some() {
            let term = self.term.take();
            self.term = Some(String::new());
            self.sibling = true;
            term
        } else {
            self.sibling = false;
            None
        }
    }

    /// Notes that something other than a term came: the last term is no
    /// longer adjacent.
    pub fn interrupt(&mut self)
        requires
            old(self).wf(),
        ensures
            final(self).wf(),
            final(self)@ == collector_interrupted(old(self)@),
    {
        self.sibling = false;
    }

    /// Appends `fragment` to the buffer.
    pub fn record(&mut self, fragment: &str)
        requires
            old(self).wf(),
            old(self)@.has_buffer,
        ensures
            final(self).wf(),
            final(self)@ == collector_recorded(old(self)@, fragment@),
    {
        let mut term = self.term.take().unwrap();
        term.append(fragment);
        self.term = Some(term);
    }

    pub fn in_term(&self) -> (r: bool)
        requires
            self.wf(),
        ensures
            r == self@.collecting,
            r ==> self@.has_buffer,
    {
        self.term.is_some() && self.position.current().is_some()
    }

    /// The last term has just closed and nothing has come since: a term
    /// starting now is its immediate sibling.
    pub fn sibling_to_term(&self) -> (r: bool)
        requires
            self.wf(),
        ensures
            r == self@.adjacent,
    {
        self.sibling
    }
}

} // verus!
