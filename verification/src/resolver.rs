//! The event resolver: events are grouped by position, and the events of one
//! position are put in the order of their priorities.

use crate::style::{Event, Style};
use vstd::prelude::*;

verus! {

/// The styles of the events of `events` that take effect at `position`, in
/// the order in which `events` lists them.
pub open spec fn styles_at(events: Seq<Event>, position: int) -> Seq<Style>
    decreases events.len(),
{
    if events.len() == 0 {
        Seq::empty()
    } else if events.last().position == position {
        styles_at(events.drop_last(), position).push(events.last().style)
    } else {
        styles_at(events.drop_last(), position)
    }
}

/// `styles` with `style` put in behind the last entry whose priority number
/// is not greater than its own.
pub open spec fn insert_by_order(styles: Seq<Style>, style: Style) -> Seq<Style>
    decreases styles.len(),
{
    if styles.len() == 0 || styles.last().order <= style.order {
        styles.push(style)
    } else {
        insert_by_order(styles.drop_last(), style).push(styles.last())
    }
}

/// `styles` in ascending order of priority number, styles of one priority in
/// the order in which `styles` lists them.
pub open spec fn by_priority(styles: Seq<Style>) -> Seq<Style>
    decreases styles.len(),
{
    if styles.len() == 0 {
        Seq::empty()
    } else {
        insert_by_order(by_priority(styles.drop_last()), styles.last())
    }
}

/// The event index of a line of `len` characters: for each character offset
/// below `len`, the styles of the events at that offset by priority.
pub open spec fn resolved(events: Seq<Event>, len: nat) -> Seq<Seq<Style>> {
    Seq::new(len, |position: int| by_priority(styles_at(events, position)))
}

/// Where every entry from `at` on has a greater priority number than `style`
/// and the entry before `at`, if there is one, has not, `style` is put in at
/// `at`.
proof fn lemma_insert_by_order_at(styles: Seq<Style>, style: Style, at: int)
    requires
        0 <= at <= styles.len(),
        forall|j: int| at <= j < styles.len() ==> styles[j].order > style.order,
        at > 0 ==> styles[at - 1].order <= style.order,
    ensures
        insert_by_order(styles, style) == styles.insert(at, style),
    decreases styles.len(),
{
    if at == styles.len() {
        assert(styles.insert(at, style) =~= styles.push(style));
    } else {
        lemma_insert_by_order_at(styles.drop_last(), style, at);
        assert(styles.insert(at, style) =~= styles.drop_last().insert(at, style).push(
            styles.last(),
        ));
    }
}

/// The events of a line by position: one slot for each character offset,
/// which holds the styles of that offset in the order in which they are
/// applied.
pub struct EventIndex {
    slots: Vec<Vec<Style>>,
}

impl View for EventIndex {
    type V = Seq<Seq<Style>>;

    closed spec fn view(&self) -> Seq<Seq<Style>> {
        Seq::new(self.slots.len() as nat, |position: int| self.slots[position]@)
    }
}

impl EventIndex {
    /// An index of `len` positions without events.
    pub fn new(len: usize) -> (index: Self)
        ensures
            index@ == Seq::new(len as nat, |position: int| Seq::<Style>::empty()),
    {
        let mut slots: Vec<Vec<Style>> = Vec::new();
        for i in 0..len
            invariant
                slots.len() == i,
                forall|p: int| 0 <= p < i ==> slots[p]@ == Seq::<Style>::empty(),
        {
            slots.push(Vec::new());
        }
        let index = EventIndex { slots };
        assert(index@ =~= Seq::new(len as nat, |position: int| Seq::<Style>::empty()));
        index
    }

    /// The positions of an index can be counted in a `usize`.
    pub proof fn lemma_len_fits(&self)
        ensures
            self@.len() <= usize::MAX,
    {
    }

    /// The number of positions.
    pub fn len(&self) -> (len: usize)
        ensures
            len == self@.len(),
    {
        self.slots.len()
    }

    /// The styles at `position` in the order in which they are applied, or
    /// `None` where the index has no such position.
    pub fn get(&self, position: usize) -> (styles: Option<&Vec<Style>>)
        ensures
            match styles {
                Some(styles) => position < self@.len() && styles@ == self@[position as int],
                None => position >= self@.len(),
            },
    {
        if position < self.slots.len() {
            Some(&self.slots[position])
        } else {
            None
        }
    }

    /// Files `event` under its position, behind the styles of that position
    /// whose priority number is not greater than its own. An event at a
    /// position that the index does not have is left out.
    pub fn insert(&mut self, event: Event)
        ensures
            final(self)@ == if event.position < old(self)@.len() {
                old(self)@.update(
                    event.position as int,
                    insert_by_order(old(self)@[event.position as int], event.style),
                )
            } else {
                old(self)@
            },
    {
        if event.position < self.slots.len() {
            let slot = &mut self.slots[event.position];
            let ghost before = slot@;
            let mut at: usize = slot.len();
            while at > 0 && slot[at - 1].order > event.style.order
                invariant
                    slot@ == before,
                    at <= slot.len(),
                    forall|j: int| at <= j < before.len() ==> before[j].order > event.style.order,
                decreases at,
            {
                at -= 1;
            }
            proof {
                lemma_insert_by_order_at(before, event.style, at as int);
            }
            slot.insert(at, event.style);
            assert(self@ =~= old(self)@.update(
                event.position as int,
                insert_by_order(old(self)@[event.position as int], event.style),
            ));
        }
    }
}

/// Groups `events` by position for a line of `len` characters and puts the
/// events of each position in the order of their priorities. Events of one
/// priority at one position keep the order in which `events` lists them.
pub fn resolve(events: &Vec<Event>, len: usize) -> (index: EventIndex)
    ensures
        index@ == resolved(events@, len as nat),
{
    let mut index = EventIndex::new(len);
    assert(index@ =~= resolved(events@.take(0), len as nat));
    for i in 0..events.len()
        invariant
            index@ == resolved(events@.take(i as int), len as nat),
    {
        index.insert(events[i]);
        proof {
            let done = events@.take(i as int);
            let next = events@.take(i + 1);
            assert(next.drop_last() =~= done);
            assert(next.last() == events@[i as int]);
            assert forall|position: int| 0 <= position < len implies #[trigger] index@[position]
                == by_priority(styles_at(next, position)) by {
                assert(resolved(done, len as nat)[position] == by_priority(
                    styles_at(done, position),
                ));
                if events@[i as int].position == position {
                    assert(styles_at(next, position).drop_last() =~= styles_at(done, position));
                }
            }
            assert(index@ =~= resolved(next, len as nat));
        }
    }
    assert(events@.take(events.len() as int) =~= events@);
    index
}

} // verus!
