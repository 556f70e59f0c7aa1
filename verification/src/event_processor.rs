//! Helpers that select events and hand their text to the aligner.

use vstd::prelude::*;
use crate::assa_file::event::Event;

verus! {

/// An event passes the filter when it is no comment (or comments are kept)
/// and its style is one of the wanted ones.
pub open spec fn spec_event_kept(e: Event, styles: Seq<Seq<char>>, keep_comments: bool) -> bool {
    (keep_comments || !e.comment) && styles.contains(e.style@)
}

fn clone_event(e: &Event) -> (r: Event)
    ensures
        r == *e,
{
    let r = Event {
        comment: e.comment,
        layer: e.layer,
        start: e.start,
        end: e.end,
        style: e.style.clone(),
        name: e.name.clone(),
        margin_l: e.margin_l,
        margin_r: e.margin_r,
        margin_v: e.margin_v,
        effect: e.effect.clone(),
        text: e.text.clone(),
    };
    r
}

fn style_wanted(e: &Event, styles: &Vec<String>) -> (r: bool)
    ensures
        r == styles.deep_view().contains(e.style@),
{
    let mut i: usize = 0;
    while i < styles.len()
        invariant
            i <= styles@.len(),
            forall|k: int| 0 <= k < i ==> styles.deep_view()[k] != e.style@,
        decreases styles@.len() - i,
    {
        if styles[i].eq(&e.style) {
            proof {
                assert(styles.deep_view()[i as int] == styles@[i as int]@);
            }
            return true;
        }
        proof {
            assert(styles.deep_view()[i as int] == styles@[i as int]@);
        }
        i = i + 1;
    }
    proof {
        if styles.deep_view().contains(e.style@) {
            let k = choose|k: int|
                0 <= k < styles.deep_view().len() && styles.deep_view()[k] == e.style@;
            assert(false);
        }
    }
    false
}

/// The events that pass the filter, in order.
pub open spec fn spec_filtered(
    events: Seq<Event>,
    styles: Seq<Seq<char>>,
    keep_comments: bool,
    i: int,
) -> Seq<Event>
    decreases i,
{
    if i <= 0 {
        Seq::empty()
    } else {
        spec_filtered(events, styles, keep_comments, i - 1) + (if spec_event_kept(
            events[i - 1],
            styles,
            keep_comments,
        ) {
            seq![events[i - 1]]
        } else {
            Seq::empty()
        })
    }
}

/// Keep the events whose style is wanted, dropping comments unless asked to
/// keep them.
pub fn filter_events_by_style(events: &Vec<Event>, styles: &Vec<String>, keep_comments: bool) -> (r:
    Vec<Event>)
    ensures
        r@ == spec_filtered(
            events@,
            styles.deep_view(),
            keep_comments,
            events@.len() as int,
        ),
{
    let mut r: Vec<Event> = Vec::new();
    let mut i: usize = 0;
    while i < events.len()
        invariant
            i <= events@.len(),
            r@ == spec_filtered(events@, styles.deep_view(), keep_comments, i as int),
        decreases events@.len() - i,
    {
        let e = &events[i];
        if (keep_comments || !e.comment) && style_wanted(e, styles) {
            r.push(clone_event(e));
            proof {
                assert(r@ =~= spec_filtered(
                    events@,
                    styles.deep_view(),
                    keep_comments,
                    i + 1,
                ));
            }
        } else {
            proof {
                assert(r@ =~= spec_filtered(
                    events@,
                    styles.deep_view(),
                    keep_comments,
                    i + 1,
                ));
            }
        }
        i = i + 1;
    }
    r
}

/// The text of each event, in order.
pub fn get_text_of_events(events: &Vec<Event>) -> (r: Vec<String>)
    ensures
        r@.len() == events@.len(),
        forall|i: int| 0 <= i < r@.len() ==> #[trigger] r@[i]@ == events@[i].text@,
{
    let mut r: Vec<String> = Vec::new();
    let mut i: usize = 0;
    while i < events.len()
        invariant
            i <= events@.len(),
            r@.len() == i,
            forall|k: int| 0 <= k < i ==> #[trigger] r@[k]@ == events@[k].text@,
        decreases events@.len() - i,
    {
        r.push(events[i].text.clone());
        i = i + 1;
    }
    r
}

} // verus!
