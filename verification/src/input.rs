//! Pointer input: the flags with which a node's handler answers an event, which
//! node holds the pointer's focus, and where an event goes next. Calling the
//! handlers is left to the caller, who hands back what each of them answered.
use vstd::prelude::*;
use crate::hittest::HitTestTreeRef;

verus! {

/// Do not hand the event on to the parent.
pub const STOP_PROPAGATION: u8 = 1;

/// Let the node capture the pointer.
pub const CAPTURE_ELEMENT: u8 = 2;

/// Let the node give the captured pointer back.
pub const RELEASE_CAPTURE_ELEMENT: u8 = 4;

/// Find the node under the pointer again.
pub const RECOMPUTE_POINTER_ENTER: u8 = 8;

/// All the flags above.
pub const ALL_EVENT_FLAGS: u8 = 15;

/// A set of the flags above.
#[derive(Clone, Copy, Debug, PartialEq, Eq, Structural)]
pub struct EventContinueControl {
    bits: u8,
}

impl EventContinueControl {
    /// The flags, as bits.
    pub closed spec fn value(self) -> u8 {
        self.bits
    }

    /// The set holds every flag of `flag`.
    pub open spec fn has(self, flag: u8) -> bool {
        self.value() & flag == flag
    }

    /// No flag.
    pub fn empty() -> (r: Self)
        ensures
            r.value() == 0,
    {
        EventContinueControl { bits: 0 }
    }

    /// Every flag.
    pub fn all() -> (r: Self)
        ensures
            r.value() == ALL_EVENT_FLAGS,
    {
        EventContinueControl { bits: ALL_EVENT_FLAGS }
    }

    /// The flags among `bits`; other bits are dropped.
    pub fn from_bits_truncate(bits: u8) -> (r: Self)
        ensures
            r.value() == bits & ALL_EVENT_FLAGS,
    {
        EventContinueControl { bits: bits & ALL_EVENT_FLAGS }
    }

    /// The set of `bits`, or `None` when a bit is no flag.
    pub fn from_bits(bits: u8) -> (r: Option<Self>)
        ensures
            (bits & ALL_EVENT_FLAGS == bits) ==> r == Some(EventContinueControl::from_value(bits)),
            (bits & ALL_EVENT_FLAGS != bits) ==> r is None,
    {
        if bits & ALL_EVENT_FLAGS == bits {
            Some(EventContinueControl { bits })
        } else {
            None
        }
    }

    /// The set whose bits are `bits`.
    pub closed spec fn from_value(bits: u8) -> Self {
        EventContinueControl { bits }
    }

    /// The bits of the set.
    pub fn bits(&self) -> (r: u8)
        ensures
            r == self.value(),
    {
        self.bits
    }

    /// The set holds every flag of `other`.
    pub fn contains(&self, other: Self) -> (r: bool)
        ensures
            r == self.has(other.value()),
    {
        self.bits & other.bits == other.bits
    }

    /// The set holds every flag of the bits `flag`.
    pub fn has_flag(&self, flag: u8) -> (r: bool)
        ensures
            r == self.has(flag),
    {
        self.bits & flag == flag
    }

    /// The set holds no flag.
    pub fn is_empty(&self) -> (r: bool)
        ensures
            r == (self.value() == 0),
    {
        self.bits == 0
    }

    /// The flags of both sets.
    pub fn union(self, other: Self) -> (r: Self)
        ensures
            r.value() == self.value() | other.value(),
    {
        EventContinueControl { bits: self.bits | other.bits }
    }

    /// Adds the flags of `other`.
    pub fn insert(&mut self, other: Self)
        ensures
            final(self).value() == old(self).value() | other.value(),
    {
        self.bits = self.bits | other.bits;
    }

    /// Takes the flags of `other` away.
    pub fn remove(&mut self, other: Self)
        ensures
            final(self).value() == old(self).value() & !other.value(),
    {
        self.bits = self.bits & !other.bits;
    }
}

/// The union of two sets holds each of them, and it does not depend on their order.
pub proof fn lemma_union_holds_both(a: EventContinueControl, b: EventContinueControl, u: EventContinueControl)
    requires
        u.value() == a.value() | b.value(),
    ensures
        u.has(a.value()),
        u.has(b.value()),
        u.value() == b.value() | a.value(),
{
    let x = a.value();
    let y = b.value();
    assert((x | y) & x == x && (x | y) & y == y && x | y == y | x) by (bit_vector);
}

/// Every set holds the empty one, and the empty set holds no flag.
pub proof fn lemma_empty_flags(a: EventContinueControl, e: EventContinueControl, flag: u8)
    requires
        e.value() == 0,
        flag != 0,
    ensures
        a.has(0),
        !e.has(flag),
{
    let x = a.value();
    assert(x & 0 == 0 && 0u8 & flag != flag) by (bit_vector)
        requires
            flag != 0,
    ;
}

/// Which node the pointer's focus is on.
#[derive(Clone, Copy, Debug, PartialEq, Eq, Structural)]
pub enum PointerFocusState {
    /// On no node.
    Unfocused,
    /// On the node under the pointer.
    Entering(HitTestTreeRef),
    /// On the node that captured the pointer, wherever the pointer is.
    Capturing(HitTestTreeRef),
}

/// The focus after a hit test found `new_hit` under the pointer.
pub open spec fn focus_of_hit(new_hit: Option<HitTestTreeRef>) -> PointerFocusState {
    match new_hit {
        Some(tr) => PointerFocusState::Entering(tr),
        None => PointerFocusState::Unfocused,
    }
}

/// Where the leave and enter events go when the node under the pointer changes.
pub open spec fn spec_hit_transition(focus: PointerFocusState, new_hit: Option<HitTestTreeRef>) -> (
    Option<HitTestTreeRef>,
    Option<HitTestTreeRef>,
) {
    match focus {
        PointerFocusState::Entering(tr) => if Some(tr) != new_hit {
            (Some(tr), new_hit)
        } else {
            (None, None)
        },
        _ => (None, None),
    }
}

/// The focus after the handler of `tr`, reached while bubbling a press, a release
/// or a click, answered `flags`.
pub open spec fn spec_after_bubbled(focus: PointerFocusState, tr: HitTestTreeRef, flags: EventContinueControl) -> PointerFocusState {
    if flags.has(CAPTURE_ELEMENT) {
        PointerFocusState::Capturing(tr)
    } else {
        focus
    }
}

/// The focus after the capturing node `tr` answered `flags`.
pub open spec fn spec_after_captured(focus: PointerFocusState, tr: HitTestTreeRef, flags: EventContinueControl) -> PointerFocusState {
    if flags.has(RELEASE_CAPTURE_ELEMENT) {
        PointerFocusState::Entering(tr)
    } else {
        focus
    }
}

impl PointerFocusState {
    /// The node that takes a pointer move on its own, without a hit test: the
    /// capturing node, if there is one.
    pub fn captured(&self) -> (r: Option<HitTestTreeRef>)
        ensures
            r == match *self {
                PointerFocusState::Capturing(tr) => Some(tr),
                _ => None,
            },
    {
        match self {
            PointerFocusState::Capturing(tr) => Some(*tr),
            _ => None,
        }
    }

    /// The node where a press, a release or a click starts to bubble: the node
    /// under the pointer, if the pointer is not captured.
    pub fn entered(&self) -> (r: Option<HitTestTreeRef>)
        ensures
            r == match *self {
                PointerFocusState::Entering(tr) => Some(tr),
                _ => None,
            },
    {
        match self {
            PointerFocusState::Entering(tr) => Some(*tr),
            _ => None,
        }
    }

    /// Takes the result of a hit test: the focus goes to the node found, or to
    /// none. Returns where the leave events start and where the enter events
    /// start; both are `None` unless the focus was on another node before.
    pub fn on_hit(&mut self, new_hit: Option<HitTestTreeRef>) -> (r: (Option<HitTestTreeRef>, Option<HitTestTreeRef>))
        requires
            !(*old(self) is Capturing),
        ensures
            r == spec_hit_transition(*old(self), new_hit),
            *final(self) == focus_of_hit(new_hit),
    {
        let r = match *self {
            PointerFocusState::Entering(tr) => {
                let changed = match new_hit {
                    Some(h) => h != tr,
                    None => true,
                };
                if changed {
                    (Some(tr), new_hit)
                } else {
                    (None, None)
                }
            },
            _ => (None, None),
        };
        *self = match new_hit {
            Some(tr) => PointerFocusState::Entering(tr),
            None => PointerFocusState::Unfocused,
        };
        r
    }

    /// Takes what the handler of `tr` answered while a press, a release or a
    /// click bubbled through it: the node captures the pointer if it asked to,
    /// and `true` tells the caller to capture the pointer for it.
    pub fn on_bubbled(&mut self, tr: HitTestTreeRef, flags: EventContinueControl) -> (r: bool)
        ensures
            r == flags.has(CAPTURE_ELEMENT),
            *final(self) == spec_after_bubbled(*old(self), tr, flags),
            flags.has(CAPTURE_ELEMENT) ==> *final(self) == PointerFocusState::Capturing(tr),
            !flags.has(CAPTURE_ELEMENT) ==> *final(self) == *old(self),
    {
        if flags.has_flag(CAPTURE_ELEMENT) {
            *self = PointerFocusState::Capturing(tr);
            true
        } else {
            false
        }
    }

    /// Takes what the capturing node `tr` answered: if it gives the pointer back,
    /// the focus goes to it as the node under the pointer, and `true` tells the
    /// caller to release the capture and to run a pointer move.
    pub fn on_captured(&mut self, tr: HitTestTreeRef, flags: EventContinueControl) -> (r: bool)
        ensures
            r == flags.has(RELEASE_CAPTURE_ELEMENT),
            *final(self) == spec_after_captured(*old(self), tr, flags),
            flags.has(RELEASE_CAPTURE_ELEMENT) ==> *final(self) == PointerFocusState::Entering(tr),
            !flags.has(RELEASE_CAPTURE_ELEMENT) ==> *final(self) == *old(self),
    {
        if flags.has_flag(RELEASE_CAPTURE_ELEMENT) {
            *self = PointerFocusState::Entering(tr);
            true
        } else {
            false
        }
    }
}

/// Where an event bubbles after a node's handler answered `flags`: to `parent`,
/// the parent that the node had when the event reached it, unless the handler
/// stopped the event.
pub fn bubble_next(parent: Option<HitTestTreeRef>, flags: EventContinueControl) -> (r: Option<HitTestTreeRef>)
    ensures
        r == if flags.has(STOP_PROPAGATION) {
            None
        } else {
            parent
        },
{
    if flags.has_flag(STOP_PROPAGATION) {
        None
    } else {
        parent
    }
}

/// Bubbling a press, a release or a click through handlers that do not ask to
/// capture the pointer leaves the focus where it was, whatever nodes they belong to;
/// and a capturing node that does not give the pointer back keeps it.
pub proof fn lemma_focus_moves_only_when_asked(
    focus: PointerFocusState,
    tr1: HitTestTreeRef,
    tr2: HitTestTreeRef,
    flags1: EventContinueControl,
    flags2: EventContinueControl,
)
    requires
        !flags1.has(CAPTURE_ELEMENT),
        !flags2.has(CAPTURE_ELEMENT),
    ensures
        spec_after_bubbled(spec_after_bubbled(focus, tr1, flags1), tr2, flags2) == focus,
        !flags1.has(RELEASE_CAPTURE_ELEMENT) ==> spec_after_captured(focus, tr1, flags1) == focus,
{
}

/// A node that captured the pointer and then gives it back holds the focus as
/// the node under the pointer.
pub proof fn lemma_capture_then_release(
    focus: PointerFocusState,
    tr: HitTestTreeRef,
    press: EventContinueControl,
    release: EventContinueControl,
)
    requires
        press.has(CAPTURE_ELEMENT),
        release.has(RELEASE_CAPTURE_ELEMENT),
    ensures
        spec_after_bubbled(focus, tr, press) == PointerFocusState::Capturing(tr),
        spec_after_captured(spec_after_bubbled(focus, tr, press), tr, release)
            == PointerFocusState::Entering(tr),
{
}

/// Leave and enter events go out only when the node under the pointer changed,
/// and a second hit test on the same node sends none.
pub proof fn lemma_same_hit_is_quiet(focus: PointerFocusState, new_hit: Option<HitTestTreeRef>)
    requires
        !(focus is Capturing),
    ensures
        spec_hit_transition(focus, new_hit).0 is Some <==> (focus is Entering && Some(
            focus->Entering_0,
        ) != new_hit),
        spec_hit_transition(focus_of_hit(new_hit), new_hit) == (
            None::<HitTestTreeRef>,
            None::<HitTestTreeRef>,
        ),
{
}

} // verus!
