//! The integer side of the effect engine: which colour modes exist, the
//! pseudo-random generator's step, and the choice of the effect on screen,
//! with or without a cross-fade.  The effects themselves draw with floating
//! point and live with the application.
use vstd::prelude::*;
use vstd::string::StringExecFns;
use crate::text::{decimal, push_decimal};
use crate::text::same_text;

verus! {

/// The colour modes the effects know.
pub open spec fn is_color_mode(mode: Seq<char>) -> bool {
    ||| mode == "rainbow"@
    ||| mode == "fire"@
    ||| mode == "ocean"@
    ||| mode == "sunset"@
    ||| mode == "custom"@
}

/// The colour modes the effects know, in the order they are offered.
pub fn color_modes() -> (r: Vec<&'static str>)
    ensures
        r@.len() == 5,
        r@[0]@ == "rainbow"@,
        r@[1]@ == "fire"@,
        r@[2]@ == "ocean"@,
        r@[3]@ == "sunset"@,
        r@[4]@ == "custom"@,
{
    vec!["rainbow", "fire", "ocean", "sunset", "custom"]
}

/// Whether `mode` names one of the colour modes.
pub fn is_valid_color_mode(mode: &str) -> (r: bool)
    ensures
        r == is_color_mode(mode@),
{
    same_text(mode, "rainbow") || same_text(mode, "fire") || same_text(mode, "ocean")
        || same_text(mode, "sunset") || same_text(mode, "custom")
}

/// One step of the xorshift generator behind the effects' randomness.
pub open spec fn xorshift(s: u32) -> u32 {
    let a = s ^ (s << 13u32);
    let b = a ^ (a >> 17u32);
    b ^ (b << 5u32)
}

/// The seed the generator starts from.
pub const INITIAL_SEED: u32 = 0x12345678;

/// The next state of the generator; the random number drawn is this state
/// divided by `u32::MAX`.
pub fn next_seed(s: u32) -> (r: u32)
    ensures
        r == xorshift(s),
{
    let a = s ^ (s << 13u32);
    let b = a ^ (a >> 17u32);
    b ^ (b << 5u32)
}

/// The message that refuses effect `index` when the last one is `last`.
pub open spec fn effect_range_message(index: usize, last: usize) -> Seq<char> {
    "Effect index "@ + decimal(index as nat) + " out of range (0-"@ + decimal(last as nat) + ")"@
}

/// The refusal of an effect index (see `effect_range_message`).
fn effect_range_error(index: usize, last: usize) -> (s: String)
    ensures
        s@ == effect_range_message(index, last),
{
    let mut s = String::from_str("Effect index ");
    push_decimal(&mut s, index);
    s.append(" out of range (0-");
    push_decimal(&mut s, last);
    s.append(")");
    s
}

/// Which effect is shown, and which one it is fading to.
pub struct SelectionModel {
    pub current: nat,
    pub transitioning: bool,
    pub target: Option<nat>,
}

/// The selection of the effect on screen among `effect_count` effects.
#[derive(Debug, Clone, Copy)]
pub struct EffectSelector {
    current: usize,
    transitioning: bool,
    target_effect: Option<usize>,
    effect_count: usize,
}

/// The selection after a request for effect `index`, when the effect on
/// screen `supports_transitions`: the same effect changes nothing; an effect
/// that fades, and is not fading already, starts fading to `index`; otherwise
/// the switch is immediate and any fade is dropped.
pub open spec fn selection_after(s: SelectionModel, index: nat, supports_transitions: bool) -> SelectionModel {
    if index == s.current {
        s
    } else if supports_transitions && !s.transitioning {
        SelectionModel { current: s.current, transitioning: true, target: Some(index) }
    } else {
        SelectionModel { current: index, transitioning: false, target: None }
    }
}

impl View for EffectSelector {
    type V = SelectionModel;

    closed spec fn view(&self) -> SelectionModel {
        SelectionModel {
            current: self.current as nat,
            transitioning: self.transitioning,
            target: match self.target_effect {
                Some(t) => Some(t as nat),
                None => None,
            },
        }
    }
}

impl EffectSelector {
    /// How many effects there are to choose from.
    pub closed spec fn count(&self) -> nat {
        self.effect_count as nat
    }

    /// The effect shown and the one faded to are effects that exist, and a
    /// fade has a target exactly while it runs.
    pub open spec fn wf(&self) -> bool {
        &&& self@.current < self.count()
        &&& (self@.target is Some <==> self@.transitioning)
        &&& (self@.target matches Some(t) ==> t < self.count())
    }

    /// The first effect shown, not fading, among `effect_count` effects.
    pub fn new(effect_count: usize) -> (r: Self)
        requires
            effect_count > 0,
        ensures
            r@ == (SelectionModel { current: 0, transitioning: false, target: None }),
            r.count() == effect_count,
            r.wf(),
    {
        EffectSelector { current: 0, transitioning: false, target_effect: None, effect_count }
    }

    /// The effect asked for last: the one being faded to during a fade, else
    /// the one on screen.
    pub fn get_current_effect(&self) -> (r: usize)
        ensures
            r == match self@.target {
                Some(t) => t,
                None => self@.current,
            },
    {
        match self.target_effect {
            Some(t) => t,
            None => self.current,
        }
    }

    /// The effect on screen (during a fade, the one faded from).
    pub fn shown_effect(&self) -> (r: usize)
        ensures
            r == self@.current,
    {
        self.current
    }

    /// How many effects there are to choose from.
    pub fn effect_count(&self) -> (r: usize)
        ensures
            r == self.count(),
    {
        self.effect_count
    }

    /// Whether a fade runs.
    pub fn is_transitioning(&self) -> (r: bool)
        ensures
            r == self@.transitioning,
    {
        self.transitioning
    }

    /// The effect being faded to.
    pub fn target_effect(&self) -> (r: Option<usize>)
        ensures
            r matches Some(t) ==> self@.target == Some(t as nat),
            r is None ==> self@.target is None,
    {
        self.target_effect
    }

    /// Asks for effect `index`; `supports_transitions` says whether the effect
    /// on screen fades.  An index past the last effect is refused and changes
    /// nothing; otherwise the selection moves as `selection_after` says.
    pub fn set_effect(&mut self, index: usize, supports_transitions: bool) -> (r: Result<(), String>)
        requires
            old(self).wf(),
        ensures
            final(self).wf(),
            final(self).count() == old(self).count(),
            r is Ok <==> index < old(self).count(),
            r matches Err(m) ==> m@ == effect_range_message(index, (old(self).count() - 1) as usize),
            r is Ok ==> final(self)@ == selection_after(old(self)@, index as nat, supports_transitions),
            r is Err ==> final(self)@ == old(self)@,
    {
        if index >= self.effect_count {
            return Err(effect_range_error(index, self.effect_count - 1));
        }
        if index == self.current {
            return Ok(());
        }
        if supports_transitions && !self.transitioning {
            self.target_effect = Some(index);
            self.transitioning = true;
        } else {
            self.current = index;
            self.transitioning = false;
            self.target_effect = None;
        }
        Ok(())
    }

    /// Ends a running fade: the effect faded to is now on screen.  Without a
    /// fade nothing changes.
    pub fn complete_transition(&mut self)
        requires
            old(self).wf(),
        ensures
            final(self).wf(),
            final(self).count() == old(self).count(),
            final(self)@ == (match old(self)@.target {
                Some(t) => SelectionModel { current: t, transitioning: false, target: None },
                None => old(self)@,
            }),
    {
        if let Some(target) = self.target_effect {
            self.current = target;
            self.transitioning = false;
            self.target_effect = None;
        }
    }
}

} // verus!
