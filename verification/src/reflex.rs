//! Reflex arbitration: of the rules an agent registered, the one whose action
//! overrides the plan this tick.

use vstd::prelude::*;

verus! {

/// How a rule compares its reading against its threshold.
#[derive(Debug, Clone, Copy, PartialEq, Eq, Structural)]
pub enum Operator {
    LessThan,
    GreaterThan,
}

/// What a fired reflex makes the vehicle do.
#[derive(Debug, Clone, Copy, PartialEq, Eq, Structural)]
pub enum ReflexAction {
    Brake,
    StopAndHold,
}

/// One registered rule as arbitration sees it: whether it is triggered this
/// tick, its priority, and its action.
#[derive(Debug, Clone, Copy, PartialEq, Eq, Structural)]
pub struct RuleState {
    pub active: bool,
    pub priority: i32,
    pub action: ReflexAction,
}

/// Rule `i` takes precedence over rule `j`: a higher priority, or the same
/// priority and registered earlier.
pub open spec fn takes_precedence(rules: Seq<RuleState>, i: int, j: int) -> bool {
    rules[i].priority > rules[j].priority || (rules[i].priority == rules[j].priority && i < j)
}

/// Rule `w` is the active rule that takes precedence over every other active
/// rule.
pub open spec fn is_winner(rules: Seq<RuleState>, w: int) -> bool {
    &&& 0 <= w < rules.len()
    &&& rules[w].active
    &&& forall|j: int| 0 <= j < rules.len() && j != w && #[trigger] rules[j].active ==> takes_precedence(rules, w, j)
}

/// The action of the highest-priority active rule, ties going to the rule
/// registered first; `None` when no rule is active.
pub fn arbitrate(rules: &[RuleState]) -> (r: Option<ReflexAction>)
    ensures
        r is None <==> forall|j: int| 0 <= j < rules@.len() ==> !(#[trigger] rules@[j]).active,
        r matches Some(a) ==> exists|w: int| is_winner(rules@, w) && rules@[w].action == a,
{
    let mut best: Option<usize> = None;
    let mut i: usize = 0;
    while i < rules.len()
        invariant
            i <= rules@.len(),
            match best {
                Some(w) => w < i && rules@[w as int].active && forall|j: int|
                    0 <= j < i && j != w && #[trigger] rules@[j].active ==> takes_precedence(rules@, w as int, j),
                None => forall|j: int| 0 <= j < i ==> !(#[trigger] rules@[j]).active,
            },
        decreases rules@.len() - i,
    {
        if rules[i].active {
            match best {
                None => {
                    best = Some(i);
                },
                Some(w) => {
                    if rules[i].priority > rules[w].priority {
                        best = Some(i);
                    }
                },
            }
        }
        i = i + 1;
    }
    match best {
        Some(w) => {
            assert(is_winner(rules@, w as int));
            Some(rules[w].action)
        },
        None => None,
    }
}

/// Arbitration is deterministic: at most one rule is the winner.
pub proof fn lemma_winner_unique(rules: Seq<RuleState>, v: int, w: int)
    requires
        is_winner(rules, v),
        is_winner(rules, w),
    ensures
        v == w,
{
    if v != w {
        assert(rules[w].active);
        assert(takes_precedence(rules, v, w));
        assert(takes_precedence(rules, w, v));
    }
}

} // verus!
