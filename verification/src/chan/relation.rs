//! Relative position of two price ranges (previous `[pl, ph]`, current `[cl, ch]`).

use vstd::prelude::*;

verus! {

/// How the current range lies relative to the previous one.
#[derive(Clone, Copy, PartialEq, Eq, Debug, Structural)]
pub enum Rel {
    Same,
    Down,
    DownGap,
    DownTouch,
    Up,
    UpGap,
    UpTouch,
    Shun,
    Ni,
}

impl Rel {
    pub open spec fn spec_is_up(self) -> bool {
        self is Up || self is UpGap || self is UpTouch
    }

    pub open spec fn spec_is_down(self) -> bool {
        self is Down || self is DownGap || self is DownTouch
    }

    pub open spec fn spec_is_contain(self) -> bool {
        self is Shun || self is Ni || self is Same
    }

    pub open spec fn spec_is_gap(self) -> bool {
        self is UpGap || self is DownGap
    }

    /// The relation seen from the other side (previous and current swapped).
    pub open spec fn mirror(self) -> Rel {
        match self {
            Rel::Same => Rel::Same,
            Rel::Down => Rel::Up,
            Rel::DownGap => Rel::UpGap,
            Rel::DownTouch => Rel::UpTouch,
            Rel::Up => Rel::Down,
            Rel::UpGap => Rel::DownGap,
            Rel::UpTouch => Rel::DownTouch,
            Rel::Shun => Rel::Ni,
            Rel::Ni => Rel::Shun,
        }
    }

    #[verifier::when_used_as_spec(spec_is_up)]
    pub fn is_up(self) -> (r: bool)
        ensures
            r == self.spec_is_up(),
    {
        match self {
            Rel::Up | Rel::UpGap | Rel::UpTouch => true,
            _ => false,
        }
    }

    #[verifier::when_used_as_spec(spec_is_down)]
    pub fn is_down(self) -> (r: bool)
        ensures
            r == self.spec_is_down(),
    {
        match self {
            Rel::Down | Rel::DownGap | Rel::DownTouch => true,
            _ => false,
        }
    }

    #[verifier::when_used_as_spec(spec_is_contain)]
    pub fn is_contain(self) -> (r: bool)
        ensures
            r == self.spec_is_contain(),
    {
        match self {
            Rel::Shun | Rel::Ni | Rel::Same => true,
            _ => false,
        }
    }

    #[verifier::when_used_as_spec(spec_is_gap)]
    pub fn is_gap(self) -> (r: bool)
        ensures
            r == self.spec_is_gap(),
    {
        match self {
            Rel::UpGap | Rel::DownGap => true,
            _ => false,
        }
    }
}

/// Classification of the current range `[cl, ch]` against the previous `[pl, ph]`:
/// both ends equal; both ends lower (touching when the previous low equals
/// the current high, a gap when it lies above it); both ends higher
/// (symmetrically); previous contains current (`Shun`); current contains
/// previous (`Ni`).
pub open spec fn spec_rel(ph: i64, pl: i64, ch: i64, cl: i64) -> Rel {
    if ph == ch && pl == cl {
        Rel::Same
    } else if ph > ch && pl > cl {
        if pl == ch {
            Rel::DownTouch
        } else if pl > ch {
            Rel::DownGap
        } else {
            Rel::Down
        }
    } else if ph < ch && pl < cl {
        if ph == cl {
            Rel::UpTouch
        } else if ph < cl {
            Rel::UpGap
        } else {
            Rel::Up
        }
    } else if ph >= ch && pl <= cl {
        Rel::Shun
    } else {
        Rel::Ni
    }
}

#[verifier::when_used_as_spec(spec_rel)]
pub fn rel(ph: i64, pl: i64, ch: i64, cl: i64) -> (r: Rel)
    ensures
        r == spec_rel(ph, pl, ch, cl),
{
    if ph == ch && pl == cl {
        return Rel::Same;
    }
    if ph > ch && pl > cl {
        if pl == ch {
            Rel::DownTouch
        } else if pl > ch {
            Rel::DownGap
        } else {
            Rel::Down
        }
    } else if ph < ch && pl < cl {
        if ph == cl {
            Rel::UpTouch
        } else if ph < cl {
            Rel::UpGap
        } else {
            Rel::Up
        }
    } else if ph >= ch && pl <= cl {
        Rel::Shun
    } else if ph <= ch && pl >= cl {
        Rel::Ni
    } else {
        Rel::Same
    }
}

/// Every pair of ranges falls in exactly one of the three classes
/// (upward, downward, containment); a gap is upward or downward; and the
/// relation is `Same` exactly when both ends agree.
pub proof fn lemma_rel_classes(ph: i64, pl: i64, ch: i64, cl: i64)
    ensures
        ({
            let r = rel(ph, pl, ch, cl);
            &&& (r.is_up() || r.is_down() || r.is_contain())
            &&& !(r.is_up() && r.is_down())
            &&& !(r.is_up() && r.is_contain())
            &&& !(r.is_down() && r.is_contain())
            &&& (r.is_gap() ==> r.is_up() || r.is_down())
            &&& (r == Rel::Same <==> (ph == ch && pl == cl))
            &&& (r.is_up() <==> (ph < ch && pl < cl))
            &&& (r.is_down() <==> (ph > ch && pl > cl))
        }),
{
}

/// Swapping the two ranges mirrors the relation: upward becomes downward
/// (gaps and touches kept), `Shun` and `Ni` trade places, `Same` stays.
pub proof fn lemma_rel_mirror(ph: i64, pl: i64, ch: i64, cl: i64)
    ensures
        rel(ch, cl, ph, pl) == rel(ph, pl, ch, cl).mirror(),
{
}

} // verus!
