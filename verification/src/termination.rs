//! Termination criteria of a run, and their compilation into one record.
use vstd::prelude::*;
use std::time::Duration;
use crate::error::Error;
use crate::real_key::RealKey;

verus! {

/// When a run ends: after a number of objective function evaluations, once
/// an objective function value at or below a target is reached, after a
/// time, or on a signal.
#[derive(Debug)]
pub enum TerminationCriterion {
    NumObjFuncEval(usize),
    TargetObjFuncVal(RealKey),
    TerminateAfter(Duration),
    Signal,
}

/// The termination criteria of a run, at most one of each kind.
#[derive(Debug)]
pub struct CompiledTerminationCriteria {
    pub max_num_obj_func_eval: Option<usize>,
    pub target_obj_func_val: Option<RealKey>,
    pub terminate_after: Option<Duration>,
    pub terminate_on_signal: bool,
}

/// The criteria compiled, or `None` where a kind occurs twice.
pub open spec fn spec_compile(criteria: Seq<TerminationCriterion>) -> Option<CompiledTerminationCriteria>
    decreases criteria.len(),
{
    if criteria.len() == 0 {
        Some(CompiledTerminationCriteria {
            max_num_obj_func_eval: None,
            target_obj_func_val: None,
            terminate_after: None,
            terminate_on_signal: false,
        })
    } else {
        match spec_compile(criteria.drop_last()) {
            None => None,
            Some(c) => match criteria.last() {
                TerminationCriterion::NumObjFuncEval(n) => if c.max_num_obj_func_eval is None {
                    Some(CompiledTerminationCriteria { max_num_obj_func_eval: Some(n), ..c })
                } else {
                    None
                },
                TerminationCriterion::TargetObjFuncVal(t) => if c.target_obj_func_val is None {
                    Some(CompiledTerminationCriteria { target_obj_func_val: Some(t), ..c })
                } else {
                    None
                },
                TerminationCriterion::TerminateAfter(d) => if c.terminate_after is None {
                    Some(CompiledTerminationCriteria { terminate_after: Some(d), ..c })
                } else {
                    None
                },
                TerminationCriterion::Signal => if !c.terminate_on_signal {
                    Some(CompiledTerminationCriteria { terminate_on_signal: true, ..c })
                } else {
                    None
                },
            },
        }
    }
}

/// The kind of a criterion, as a number: each kind may occur once.
pub open spec fn criterion_kind(c: TerminationCriterion) -> int {
    match c {
        TerminationCriterion::NumObjFuncEval(_) => 0,
        TerminationCriterion::TargetObjFuncVal(_) => 1,
        TerminationCriterion::TerminateAfter(_) => 2,
        TerminationCriterion::Signal => 3,
    }
}

/// Whether no kind of criterion occurs twice.
pub open spec fn kinds_distinct(criteria: Seq<TerminationCriterion>) -> bool {
    forall|i: int, j: int|
        0 <= i < j < criteria.len() ==> criterion_kind(#[trigger] criteria[i]) != criterion_kind(#[trigger] criteria[j])
}

/// Whether a record holds the given criteria: each field holds the
/// criterion of its kind where one is given, and nothing where none is.
pub open spec fn holds_criteria(c: CompiledTerminationCriteria, criteria: Seq<TerminationCriterion>) -> bool {
    &&& forall|i: int| 0 <= i < criteria.len() ==> match #[trigger] criteria[i] {
        TerminationCriterion::NumObjFuncEval(n) => c.max_num_obj_func_eval == Some(n),
        TerminationCriterion::TargetObjFuncVal(t) => c.target_obj_func_val == Some(t),
        TerminationCriterion::TerminateAfter(d) => c.terminate_after == Some(d),
        TerminationCriterion::Signal => c.terminate_on_signal,
    }
    &&& c.max_num_obj_func_eval is Some ==> exists|i: int| 0 <= i < criteria.len() && #[trigger] criterion_kind(criteria[i]) == 0
    &&& c.target_obj_func_val is Some ==> exists|i: int| 0 <= i < criteria.len() && #[trigger] criterion_kind(criteria[i]) == 1
    &&& c.terminate_after is Some ==> exists|i: int| 0 <= i < criteria.len() && #[trigger] criterion_kind(criteria[i]) == 2
    &&& c.terminate_on_signal ==> exists|i: int| 0 <= i < criteria.len() && #[trigger] criterion_kind(criteria[i]) == 3
}

/// Criteria compile exactly when no kind occurs twice, whatever their
/// order; then each field of the record holds the criterion of its kind, and
/// a field whose kind is not given holds nothing.
pub proof fn law_compile_each_kind_once(criteria: Seq<TerminationCriterion>)
    ensures
        spec_compile(criteria) is Some <==> kinds_distinct(criteria),
        spec_compile(criteria) matches Some(c) ==> holds_criteria(c, criteria),
    decreases criteria.len(),
{
    if criteria.len() > 0 {
        let p = criteria.drop_last();
        let n = criteria.len() - 1;
        law_compile_each_kind_once(p);
        assert forall|i: int| 0 <= i < n implies #[trigger] criteria[i] == p[i] by {}
        if kinds_distinct(criteria) {
            assert(kinds_distinct(p)) by {
                assert forall|i: int, j: int| 0 <= i < j < p.len() implies criterion_kind(#[trigger] p[i]) != criterion_kind(#[trigger] p[j]) by {
                    assert(criteria[i] == p[i] && criteria[j] == p[j]);
                }
            }
            let c = spec_compile(p)->Some_0;
            // the last kind does not occur before, so its field is still empty
            assert(criteria.last() == criteria[n]);
            match criteria.last() {
                TerminationCriterion::NumObjFuncEval(_) => {
                    if c.max_num_obj_func_eval is Some {
                        let i = choose|i: int| 0 <= i < p.len() && #[trigger] criterion_kind(p[i]) == 0;
                        assert(criterion_kind(criteria[i]) == criterion_kind(criteria[n]));
                    }
                },
                TerminationCriterion::TargetObjFuncVal(_) => {
                    if c.target_obj_func_val is Some {
                        let i = choose|i: int| 0 <= i < p.len() && #[trigger] criterion_kind(p[i]) == 1;
                        assert(criterion_kind(criteria[i]) == criterion_kind(criteria[n]));
                    }
                },
                TerminationCriterion::TerminateAfter(_) => {
                    if c.terminate_after is Some {
                        let i = choose|i: int| 0 <= i < p.len() && #[trigger] criterion_kind(p[i]) == 2;
                        assert(criterion_kind(criteria[i]) == criterion_kind(criteria[n]));
                    }
                },
                TerminationCriterion::Signal => {
                    if c.terminate_on_signal {
                        let i = choose|i: int| 0 <= i < p.len() && #[trigger] criterion_kind(p[i]) == 3;
                        assert(criterion_kind(criteria[i]) == criterion_kind(criteria[n]));
                    }
                },
            }
            let c2 = spec_compile(criteria)->Some_0;
            assert forall|i: int| 0 <= i < criteria.len() implies match #[trigger] criteria[i] {
                TerminationCriterion::NumObjFuncEval(v) => c2.max_num_obj_func_eval == Some(v),
                TerminationCriterion::TargetObjFuncVal(t) => c2.target_obj_func_val == Some(t),
                TerminationCriterion::TerminateAfter(d) => c2.terminate_after == Some(d),
                TerminationCriterion::Signal => c2.terminate_on_signal,
            } by {
                if i < n {
                    assert(criteria[i] == p[i]);
                    assert(criterion_kind(criteria[i]) != criterion_kind(criteria[n]));
                }
            }
            assert(holds_criteria(c2, criteria)) by {
                if c2.max_num_obj_func_eval is Some && !(criteria.last() is NumObjFuncEval) {
                    let i = choose|i: int| 0 <= i < p.len() && #[trigger] criterion_kind(p[i]) == 0;
                    assert(criterion_kind(criteria[i]) == 0);
                }
                if c2.target_obj_func_val is Some && !(criteria.last() is TargetObjFuncVal) {
                    let i = choose|i: int| 0 <= i < p.len() && #[trigger] criterion_kind(p[i]) == 1;
                    assert(criterion_kind(criteria[i]) == 1);
                }
                if c2.terminate_after is Some && !(criteria.last() is TerminateAfter) {
                    let i = choose|i: int| 0 <= i < p.len() && #[trigger] criterion_kind(p[i]) == 2;
                    assert(criterion_kind(criteria[i]) == 2);
                }
                if c2.terminate_on_signal && !(criteria.last() is Signal) {
                    let i = choose|i: int| 0 <= i < p.len() && #[trigger] criterion_kind(p[i]) == 3;
                    assert(criterion_kind(criteria[i]) == 3);
                }
                assert(criterion_kind(criteria[n]) == criterion_kind(criteria.last()));
            }
        } else {
            let (i, j) = choose|i: int, j: int|
                0 <= i < j < criteria.len() && criterion_kind(#[trigger] criteria[i]) == criterion_kind(#[trigger] criteria[j]);
            if j < n {
                assert(criteria[i] == p[i] && criteria[j] == p[j]);
                assert(!kinds_distinct(p));
            } else if spec_compile(p) is Some {
                let c = spec_compile(p)->Some_0;
                assert(criteria[i] == p[i]);
                assert(criteria.last() == criteria[j]);
            }
        }
    }
}

/// The criteria in one record; `ConflictingTerminationCriteria` exactly
/// where a kind of criterion occurs more than once.
pub fn compile(termination_criteria: Vec<TerminationCriterion>) -> (r: Result<CompiledTerminationCriteria, Error>)
    ensures
        match spec_compile(termination_criteria@) {
            Some(c) => r == Ok::<CompiledTerminationCriteria, Error>(c),
            None => r == Err::<CompiledTerminationCriteria, Error>(Error::ConflictingTerminationCriteria),
        },
        r is Ok <==> kinds_distinct(termination_criteria@),
        r matches Ok(c) ==> holds_criteria(c, termination_criteria@),
{
    let mut max_num_obj_func_eval: Option<usize> = None;
    let mut target_obj_func_val: Option<RealKey> = None;
    let mut terminate_after: Option<Duration> = None;
    let mut terminate_on_signal = false;
    let mut i: usize = 0;
    while i < termination_criteria.len()
        invariant
            i <= termination_criteria@.len(),
            spec_compile(termination_criteria@.take(i as int)) == Some(CompiledTerminationCriteria {
                max_num_obj_func_eval,
                target_obj_func_val,
                terminate_after,
                terminate_on_signal,
            }),
        decreases termination_criteria.len() - i,
    {
        let ghost prefix = termination_criteria@.take(i as int + 1);
        proof {
            assert(prefix.drop_last() =~= termination_criteria@.take(i as int));
            assert(prefix.last() == termination_criteria@[i as int]);
        }
        match &termination_criteria[i] {
            TerminationCriterion::NumObjFuncEval(n) => {
                if max_num_obj_func_eval.is_none() {
                    max_num_obj_func_eval = Some(*n);
                } else {
                    return Err(compile_conflict(Ghost(termination_criteria@), i));
                }
            },
            TerminationCriterion::TargetObjFuncVal(t) => {
                if target_obj_func_val.is_none() {
                    target_obj_func_val = Some(*t);
                } else {
                    return Err(compile_conflict(Ghost(termination_criteria@), i));
                }
            },
            TerminationCriterion::TerminateAfter(d) => {
                if terminate_after.is_none() {
                    terminate_after = Some(*d);
                } else {
                    return Err(compile_conflict(Ghost(termination_criteria@), i));
                }
            },
            TerminationCriterion::Signal => {
                if !terminate_on_signal {
                    terminate_on_signal = true;
                } else {
                    return Err(compile_conflict(Ghost(termination_criteria@), i));
                }
            },
        }
        i = i + 1;
    }
    assert(termination_criteria@.take(termination_criteria@.len() as int) =~= termination_criteria@);
    proof {
        law_compile_each_kind_once(termination_criteria@);
    }
    Ok(CompiledTerminationCriteria { max_num_obj_func_eval, target_obj_func_val, terminate_after, terminate_on_signal })
}

/// Once a prefix of the criteria conflicts, the whole sequence does.
proof fn lemma_conflict_extends(criteria: Seq<TerminationCriterion>, n: int)
    requires
        0 <= n <= criteria.len(),
        spec_compile(criteria.take(n)) is None,
    ensures
        spec_compile(criteria) is None,
    decreases criteria.len() - n,
{
    if n < criteria.len() {
        assert(criteria.take(n + 1).drop_last() =~= criteria.take(n));
        lemma_conflict_extends(criteria, n + 1);
    } else {
        assert(criteria.take(n) =~= criteria);
    }
}

/// The error for criteria whose prefix up to `i` conflicts.
fn compile_conflict(Ghost(criteria): Ghost<Seq<TerminationCriterion>>, i: usize) -> (r: Error)
    requires
        i < criteria.len(),
        spec_compile(criteria.take(i as int + 1)) is None,
    ensures
        r == Error::ConflictingTerminationCriteria,
        spec_compile(criteria) is None,
        !kinds_distinct(criteria),
{
    proof {
        lemma_conflict_extends(criteria, i as int + 1);
        law_compile_each_kind_once(criteria);
    }
    Error::ConflictingTerminationCriteria
}

} // verus!
