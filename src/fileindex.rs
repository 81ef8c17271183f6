//! Which generated file holds each identifier.
use crate::markup::{attr_value, get_attr, Event};
use crate::strmap::StrMap;
use vstd::prelude::*;
use vstd::string::*;

verus! {

/// The identifiers of a file's elements, in document order: the value of
/// each element's first `id` attribute.
pub open spec fn ids_in(events: Seq<Event>) -> Seq<Seq<char>>
    decreases events.len(),
{
    if events.len() == 0 {
        Seq::empty()
    } else {
        let before = ids_in(events.drop_last());
        match events.last() {
            Event::StartElement { attributes, .. } => match attr_value(attributes@, "id"@) {
                Some(v) => before.push(v),
                None => before,
            },
            _ => before,
        }
    }
}

/// `m` with each of `ids` mapped to `file`.
pub open spec fn with_ids(m: Map<Seq<char>, Seq<char>>, ids: Seq<String>, file: Seq<char>) -> Map<
    Seq<char>,
    Seq<char>,
>
    decreases ids.len(),
{
    if ids.len() == 0 {
        m
    } else {
        with_ids(m, ids.drop_last(), file).insert(ids.last()@, file)
    }
}

/// Builds the map from identifiers to the generated files that hold them.
pub struct IndexMap {}

impl IndexMap {
    /// The identifiers found in the events of one file.
    pub fn parse(events: &Vec<Event>) -> (r: Vec<String>)
        ensures
            r@.map_values(|s: String| s@) == ids_in(events@),
    {
        let mut id_list: Vec<String> = Vec::new();
        let mut i: usize = 0;
        while i < events.len()
            invariant
                i <= events@.len(),
                id_list@.map_values(|s: String| s@) == ids_in(events@.subrange(0, i as int)),
            decreases events@.len() - i,
        {
            proof {
                assert(events@.subrange(0, i + 1).drop_last() =~= events@.subrange(0, i as int));
                reveal_strlit("id");
            }
            let ghost before = id_list@;
            match &events[i] {
                Event::StartElement { attributes, .. } => {
                    if let Some(id) = get_attr("id", attributes) {
                        id_list.push(id.to_owned());
                        proof {
                            assert(id_list@.map_values(|s: String| s@) =~= before.map_values(
                                |s: String| s@,
                            ).push(id@));
                        }
                    }
                },
                _ => {},
            }
            i = i + 1;
        }
        proof {
            assert(events@.subrange(0, events@.len() as int) =~= events@);
        }
        id_list
    }

    /// Records that each of `ids` is found in `file`; a later mapping of an
    /// identifier replaces an earlier one.
    pub fn add_file(map: &mut StrMap, file: &String, ids: &Vec<String>)
        requires
            old(map).wf(),
        ensures
            final(map).wf(),
            final(map)@ == with_ids(old(map)@, ids@, file@),
    {
        let mut i: usize = 0;
        while i < ids.len()
            invariant
                i <= ids@.len(),
                map.wf(),
                map@ == with_ids(old(map)@, ids@.subrange(0, i as int), file@),
            decreases ids@.len() - i,
        {
            proof {
                assert(ids@.subrange(0, i + 1).drop_last() =~= ids@.subrange(0, i as int));
            }
            map.insert(ids[i].clone(), file.clone());
            i = i + 1;
        }
        proof {
            assert(ids@.subrange(0, ids@.len() as int) =~= ids@);
        }
    }
}

} // verus!
