//! The description of a segmented presentation, as far as it is needed to
//! tell which file of the presentation carries the provenance box.
//!
//! A presentation lists periods, a period adaptation sets, an adaptation set
//! representations. A representation names its segments by two patterns: one
//! for the initialization segment, one for the media segments.

use vstd::prelude::*;

verus! {

/// A segmented presentation.
#[derive(Debug, Clone, PartialEq, Eq)]
pub struct DashManifest {
    pub duration: String,
    pub min_buffer_time: String,
    pub periods: Vec<Period>,
}

/// A stretch of the presentation.
#[derive(Debug, Clone, PartialEq, Eq)]
pub struct Period {
    pub adaptation_sets: Vec<AdaptationSet>,
}

/// Interchangeable encodings of one component.
#[derive(Debug, Clone, PartialEq, Eq)]
pub struct AdaptationSet {
    pub id: String,
    pub mime_type: String,
    pub representations: Vec<Representation>,
}

/// One encoding of a component.
#[derive(Debug, Clone, PartialEq, Eq)]
pub struct Representation {
    pub id: String,
    pub bandwidth: u32,
    pub codecs: String,
    pub segment_template: Option<SegmentTemplate>,
}

/// How the segments of a representation are named and timed.
#[derive(Debug, Clone, PartialEq, Eq)]
pub struct SegmentTemplate {
    pub initialization: String,
    pub media: String,
    pub timescale: u32,
    pub duration: u32,
}

/// The first representation of the list with this id.
pub open spec fn lookup_in_representations(reps: Seq<Representation>, id: Seq<char>) -> Option<
    Representation,
>
    decreases reps.len(),
{
    if reps.len() == 0 {
        None
    } else if reps.first().id@ == id {
        Some(reps.first())
    } else {
        lookup_in_representations(reps.drop_first(), id)
    }
}

/// The first representation with this id in the adaptation sets, in order.
pub open spec fn lookup_in_sets(sets: Seq<AdaptationSet>, id: Seq<char>) -> Option<Representation>
    decreases sets.len(),
{
    if sets.len() == 0 {
        None
    } else {
        match lookup_in_representations(sets.first().representations@, id) {
            Some(rep) => Some(rep),
            None => lookup_in_sets(sets.drop_first(), id),
        }
    }
}

/// The first representation with this id in the periods, in order.
pub open spec fn lookup_in_periods(periods: Seq<Period>, id: Seq<char>) -> Option<Representation>
    decreases periods.len(),
{
    if periods.len() == 0 {
        None
    } else {
        match lookup_in_sets(periods.first().adaptation_sets@, id) {
            Some(rep) => Some(rep),
            None => lookup_in_periods(periods.drop_first(), id),
        }
    }
}

/// The representation that the presentation lists under this id: the first
/// one in document order.
pub open spec fn lookup(manifest: DashManifest, id: Seq<char>) -> Option<Representation> {
    lookup_in_periods(manifest.periods@, id)
}

/// Finds the first representation with this id in a list.
fn find_in_representations<'a>(reps: &'a Vec<Representation>, wanted: &String) -> (res: Option<
    &'a Representation,
>)
    ensures
        match res {
            Some(rep) => lookup_in_representations(reps@, wanted@) == Some(*rep),
            None => lookup_in_representations(reps@, wanted@) is None,
        },
{
    let n: usize = reps.len();
    let mut i: usize = 0;
    proof {
        assert(reps@.subrange(0, n as int) =~= reps@);
    }
    while i < n
        invariant
            i <= n,
            n == reps@.len(),
            lookup_in_representations(reps@, wanted@) == lookup_in_representations(
                reps@.subrange(i as int, n as int),
                wanted@,
            ),
        decreases n - i,
    {
        let rep: &Representation = &reps[i];
        proof {
            let here = reps@.subrange(i as int, n as int);
            assert(here.first() == reps@[i as int]);
            assert(here.drop_first() =~= reps@.subrange(i + 1, n as int));
        }
        if rep.id == *wanted {
            return Some(rep);
        }
        i = i + 1;
    }
    None
}

/// Finds the first representation with this id in a list of adaptation sets.
fn find_in_sets<'a>(sets: &'a Vec<AdaptationSet>, wanted: &String) -> (res: Option<
    &'a Representation,
>)
    ensures
        match res {
            Some(rep) => lookup_in_sets(sets@, wanted@) == Some(*rep),
            None => lookup_in_sets(sets@, wanted@) is None,
        },
{
    let n: usize = sets.len();
    let mut i: usize = 0;
    proof {
        assert(sets@.subrange(0, n as int) =~= sets@);
    }
    while i < n
        invariant
            i <= n,
            n == sets@.len(),
            lookup_in_sets(sets@, wanted@) == lookup_in_sets(
                sets@.subrange(i as int, n as int),
                wanted@,
            ),
        decreases n - i,
    {
        proof {
            let here = sets@.subrange(i as int, n as int);
            assert(here.first() == sets@[i as int]);
            assert(here.drop_first() =~= sets@.subrange(i + 1, n as int));
        }
        match find_in_representations(&sets[i].representations, wanted) {
            Some(rep) => {
                return Some(rep);
            },
            None => {},
        }
        i = i + 1;
    }
    None
}

/// Finds the first representation with this id in a list of periods.
fn find_in_periods<'a>(periods: &'a Vec<Period>, wanted: &String) -> (res: Option<
    &'a Representation,
>)
    ensures
        match res {
            Some(rep) => lookup_in_periods(periods@, wanted@) == Some(*rep),
            None => lookup_in_periods(periods@, wanted@) is None,
        },
{
    let n: usize = periods.len();
    let mut i: usize = 0;
    proof {
        assert(periods@.subrange(0, n as int) =~= periods@);
    }
    while i < n
        invariant
            i <= n,
            n == periods@.len(),
            lookup_in_periods(periods@, wanted@) == lookup_in_periods(
                periods@.subrange(i as int, n as int),
                wanted@,
            ),
        decreases n - i,
    {
        proof {
            let here = periods@.subrange(i as int, n as int);
            assert(here.first() == periods@[i as int]);
            assert(here.drop_first() =~= periods@.subrange(i + 1, n as int));
        }
        match find_in_sets(&periods[i].adaptation_sets, wanted) {
            Some(rep) => {
                return Some(rep);
            },
            None => {},
        }
        i = i + 1;
    }
    None
}

/// Finds the representation that the presentation lists under `id`.
pub fn find_representation<'a>(manifest: &'a DashManifest, id: &str) -> (res: Option<
    &'a Representation,
>)
    ensures
        match res {
            Some(rep) => lookup(*manifest, id@) == Some(*rep),
            None => lookup(*manifest, id@) is None,
        },
{
    let wanted: String = id.to_owned();
    find_in_periods(&manifest.periods, &wanted)
}

} // verus!
