//! Touch tracking. Positions and forces are carried as they come; this module only moves
//! them between touches, so it is generic over their types.
use std::collections::HashMap;
use vstd::prelude::*;
use vstd::std_specs::iter::IteratorSpec;

verus! {

broadcast use vstd::std_specs::hash::group_hash_axioms;

#[derive(Debug, Clone, Copy, PartialEq, Eq, Hash, Structural)]
pub struct TouchId(pub u64);

impl TouchId {
    pub fn new(id: u64) -> (r: TouchId)
        ensures
            r.0 == id,
    {
        TouchId(id)
    }
}

#[derive(Debug, Hash, PartialEq, Eq, Clone, Copy, Structural)]
pub enum TouchPhase {
    Started,
    Moved,
    Ended,
    Cancelled,
}

/// One touch event: a phase, a position and maybe a force.
#[derive(Debug, Clone, Copy)]
pub struct TouchInput<P, F> {
    pub phase: TouchPhase,
    pub position: P,
    pub force: Option<F>,
    pub id: TouchId,
}

/// A touch: where and how hard it started, was last time, and is now.
#[derive(Debug, Clone, Copy)]
pub struct Touch<P, F> {
    pub id: TouchId,
    pub start_position: P,
    pub start_force: Option<F>,
    pub previous_position: P,
    pub previous_force: Option<F>,
    pub position: P,
    pub force: Option<F>,
}

/// A touch that starts, stays and is now at the event's position and force.
pub open spec fn touch_of<P, F>(input: TouchInput<P, F>) -> Touch<P, F> {
    Touch {
        id: input.id,
        start_position: input.position,
        start_force: input.force,
        previous_position: input.position,
        previous_force: input.force,
        position: input.position,
        force: input.force,
    }
}

/// `t` moved to the event's position and force; where it was becomes its previous place.
pub open spec fn touch_moved<P, F>(t: Touch<P, F>, input: TouchInput<P, F>) -> Touch<P, F> {
    Touch {
        id: t.id,
        start_position: t.start_position,
        start_force: t.start_force,
        previous_position: t.position,
        previous_force: t.force,
        position: input.position,
        force: input.force,
    }
}

impl<P: Copy, F: Copy> Touch<P, F> {
    pub fn from_input(input: &TouchInput<P, F>) -> (r: Touch<P, F>)
        ensures
            r == touch_of(*input),
    {
        Touch {
            id: input.id,
            start_position: input.position,
            start_force: input.force,
            previous_position: input.position,
            previous_force: input.force,
            position: input.position,
            force: input.force,
        }
    }

    pub fn id(&self) -> (r: TouchId)
        ensures
            r == self.id,
    {
        self.id
    }

    pub fn start_position(&self) -> (r: P)
        ensures
            r == self.start_position,
    {
        self.start_position
    }

    pub fn start_force(&self) -> (r: Option<F>)
        ensures
            r == self.start_force,
    {
        self.start_force
    }

    pub fn previous_position(&self) -> (r: P)
        ensures
            r == self.previous_position,
    {
        self.previous_position
    }

    pub fn position(&self) -> (r: P)
        ensures
            r == self.position,
    {
        self.position
    }

    pub fn force(&self) -> (r: Option<F>)
        ensures
            r == self.force,
    {
        self.force
    }
}

/// The abstract state of the touches: those held down, and those that started, ended or
/// were cancelled since the last flush, each by touch id.
pub struct TouchesView<P, F> {
    pub pressed: Map<u64, Touch<P, F>>,
    pub just_pressed: Map<u64, Touch<P, F>>,
    pub just_released: Map<u64, Touch<P, F>>,
    pub just_cancelled: Map<u64, Touch<P, F>>,
}

/// The state after one touch event.
pub open spec fn touches_after<P, F>(t: TouchesView<P, F>, e: TouchInput<P, F>) -> TouchesView<P, F> {
    let id = e.id.0;
    match e.phase {
        TouchPhase::Started => TouchesView {
            pressed: t.pressed.insert(id, touch_of(e)),
            just_pressed: t.just_pressed.insert(id, touch_of(e)),
            just_released: t.just_released,
            just_cancelled: t.just_cancelled,
        },
        TouchPhase::Moved => TouchesView {
            pressed: if t.pressed.contains_key(id) {
                t.pressed.insert(id, touch_moved(t.pressed[id], e))
            } else {
                t.pressed
            },
            just_pressed: t.just_pressed,
            just_released: t.just_released,
            just_cancelled: t.just_cancelled,
        },
        TouchPhase::Ended => TouchesView {
            pressed: t.pressed.remove(id),
            just_pressed: t.just_pressed,
            just_released: t.just_released.insert(id, touch_of(e)),
            just_cancelled: t.just_cancelled,
        },
        TouchPhase::Cancelled => TouchesView {
            pressed: t.pressed.remove(id),
            just_pressed: t.just_pressed,
            just_released: t.just_released,
            just_cancelled: t.just_cancelled.insert(id, touch_of(e)),
        },
    }
}

/// A touch event changes only the touch it is about: every other id is held, started,
/// ended and cancelled as before. A touch that starts is held and just pressed; one that
/// ends or is cancelled is no longer held.
pub proof fn lemma_touch_event_is_local<P, F>(t: TouchesView<P, F>, e: TouchInput<P, F>, other: u64)
    requires
        other != e.id.0,
    ensures
        touches_after(t, e).pressed.get(other) == t.pressed.get(other),
        touches_after(t, e).just_pressed.get(other) == t.just_pressed.get(other),
        touches_after(t, e).just_released.get(other) == t.just_released.get(other),
        touches_after(t, e).just_cancelled.get(other) == t.just_cancelled.get(other),
        e.phase == TouchPhase::Started ==> touches_after(t, e).pressed.get(e.id.0) == Some(touch_of(e))
            && touches_after(t, e).just_pressed.get(e.id.0) == Some(touch_of(e)),
        e.phase == TouchPhase::Ended ==> !touches_after(t, e).pressed.contains_key(e.id.0)
            && touches_after(t, e).just_released.get(e.id.0) == Some(touch_of(e)),
        e.phase == TouchPhase::Cancelled ==> !touches_after(t, e).pressed.contains_key(e.id.0)
            && touches_after(t, e).just_cancelled.get(e.id.0) == Some(touch_of(e)),
{
}

/// A move of a held touch advances it by one step: its previous position and force
/// become the position and force it had just before the move, its current ones are the
/// event's, and where it started stays. A move of a touch that is not held changes
/// nothing, and a move never starts, ends or cancels a touch.
pub proof fn lemma_moved_touch_advances<P, F>(t: TouchesView<P, F>, e: TouchInput<P, F>)
    requires
        e.phase == TouchPhase::Moved,
    ensures
        t.pressed.contains_key(e.id.0) ==> {
            let before = t.pressed[e.id.0];
            let after = touches_after(t, e).pressed[e.id.0];
            &&& touches_after(t, e).pressed.contains_key(e.id.0)
            &&& after.previous_position == before.position
            &&& after.previous_force == before.force
            &&& after.position == e.position
            &&& after.force == e.force
            &&& after.start_position == before.start_position
            &&& after.start_force == before.start_force
            &&& after.id == before.id
        },
        !t.pressed.contains_key(e.id.0) ==> touches_after(t, e) == t,
        touches_after(t, e).just_pressed == t.just_pressed,
        touches_after(t, e).just_released == t.just_released,
        touches_after(t, e).just_cancelled == t.just_cancelled,
{
}

/// All touches, by id.
pub struct Touches<P, F> {
    pressed: HashMap<u64, Touch<P, F>>,
    just_pressed: HashMap<u64, Touch<P, F>>,
    just_released: HashMap<u64, Touch<P, F>>,
    just_cancelled: HashMap<u64, Touch<P, F>>,
}

impl<P, F> View for Touches<P, F> {
    type V = TouchesView<P, F>;

    closed spec fn view(&self) -> TouchesView<P, F> {
        TouchesView {
            pressed: self.pressed@,
            just_pressed: self.just_pressed@,
            just_released: self.just_released@,
            just_cancelled: self.just_cancelled@,
        }
    }
}

impl<P, F> Default for Touches<P, F> {
    fn default() -> (r: Touches<P, F>)
        ensures
            r@.pressed == Map::<u64, Touch<P, F>>::empty(),
            r@.just_pressed == Map::<u64, Touch<P, F>>::empty(),
            r@.just_released == Map::<u64, Touch<P, F>>::empty(),
            r@.just_cancelled == Map::<u64, Touch<P, F>>::empty(),
    {
        Touches {
            pressed: HashMap::new(),
            just_pressed: HashMap::new(),
            just_released: HashMap::new(),
            just_cancelled: HashMap::new(),
        }
    }
}

/// The touches of `m`, in the map's order.
fn touches_of<P: Copy, F: Copy>(m: &HashMap<u64, Touch<P, F>>) -> (r: Vec<Touch<P, F>>)
    ensures
        r@.to_set() == m@.values(),
        r@.len() == m@.dom().len(),
{
    let mut out: Vec<Touch<P, F>> = Vec::new();
    let ghost vs = m.values().remaining();
    for t in it: m.values()
        invariant
            it.seq() == vs,
            out@ == vs.take(it.index() as int).map_values(|x: &Touch<P, F>| *x),
    {
        proof {
            assert(vs.take(it.index() + 1) == vs.take(it.index() as int).push(t));
        }
        out.push(*t);
    }
    proof {
        assert(vs.take(vs.len() as int) == vs);
        assert(out@ =~= vs.unref());
    }
    out
}

impl<P: Copy, F: Copy> Touches<P, F> {
    /// The touches held down, in no particular order.
    pub fn iter(&self) -> (r: Vec<Touch<P, F>>)
        ensures
            r@.to_set() == self@.pressed.values(),
            r@.len() == self@.pressed.dom().len(),
    {
        touches_of(&self.pressed)
    }

    /// The touches that started this frame, in no particular order.
    pub fn iter_just_pressed(&self) -> (r: Vec<Touch<P, F>>)
        ensures
            r@.to_set() == self@.just_pressed.values(),
            r@.len() == self@.just_pressed.dom().len(),
    {
        touches_of(&self.just_pressed)
    }

    /// The touches that ended this frame, in no particular order.
    pub fn iter_just_released(&self) -> (r: Vec<Touch<P, F>>)
        ensures
            r@.to_set() == self@.just_released.values(),
            r@.len() == self@.just_released.dom().len(),
    {
        touches_of(&self.just_released)
    }

    /// The touches cancelled this frame, in no particular order.
    pub fn iter_just_cancelled(&self) -> (r: Vec<Touch<P, F>>)
        ensures
            r@.to_set() == self@.just_cancelled.values(),
            r@.len() == self@.just_cancelled.dom().len(),
    {
        touches_of(&self.just_cancelled)
    }

    pub fn get_pressed(&self, id: TouchId) -> (r: Option<&Touch<P, F>>)
        ensures
            match r {
                Some(t) => self@.pressed.contains_key(id.0) && *t == self@.pressed[id.0],
                None => !self@.pressed.contains_key(id.0),
            },
    {
        self.pressed.get(&id.0)
    }

    pub fn just_pressed(&self, id: TouchId) -> (r: bool)
        ensures
            r == self@.just_pressed.contains_key(id.0),
    {
        self.just_pressed.contains_key(&id.0)
    }

    pub fn get_released(&self, id: TouchId) -> (r: Option<&Touch<P, F>>)
        ensures
            match r {
                Some(t) => self@.just_released.contains_key(id.0) && *t == self@.just_released[id.0],
                None => !self@.just_released.contains_key(id.0),
            },
    {
        self.just_released.get(&id.0)
    }

    pub fn just_released(&self, id: TouchId) -> (r: bool)
        ensures
            r == self@.just_released.contains_key(id.0),
    {
        self.just_released.contains_key(&id.0)
    }

    pub fn just_cancelled(&self, id: TouchId) -> (r: bool)
        ensures
            r == self@.just_cancelled.contains_key(id.0),
    {
        self.just_cancelled.contains_key(&id.0)
    }

    /// Records one touch event.
    pub fn process_event(&mut self, event: &TouchInput<P, F>)
        ensures
            final(self)@ == touches_after(old(self)@, *event),
    {
        let id = event.id.0;
        match event.phase {
            TouchPhase::Started => {
                self.pressed.insert(id, Touch::from_input(event));
                self.just_pressed.insert(id, Touch::from_input(event));
            },
            TouchPhase::Moved => {
                match self.pressed.get(&id) {
                    Some(t) => {
                        let old_touch = *t;
                        let new_touch = Touch {
                            id: old_touch.id,
                            start_position: old_touch.start_position,
                            start_force: old_touch.start_force,
                            previous_position: old_touch.position,
                            previous_force: old_touch.force,
                            position: event.position,
                            force: event.force,
                        };
                        self.pressed.insert(id, new_touch);
                    },
                    None => {},
                }
            },
            TouchPhase::Ended => {
                self.just_released.insert(id, Touch::from_input(event));
                self.pressed.remove(&id);
            },
            TouchPhase::Cancelled => {
                self.just_cancelled.insert(id, Touch::from_input(event));
                self.pressed.remove(&id);
            },
        }
    }

    /// Forgets which touches started, ended or were cancelled; held touches stay.
    pub fn flush(&mut self)
        ensures
            final(self)@.pressed == old(self)@.pressed,
            final(self)@.just_pressed == Map::<u64, Touch<P, F>>::empty(),
            final(self)@.just_released == Map::<u64, Touch<P, F>>::empty(),
            final(self)@.just_cancelled == Map::<u64, Touch<P, F>>::empty(),
    {
        self.just_pressed.clear();
        self.just_released.clear();
        self.just_cancelled.clear();
    }
}

} // verus!
