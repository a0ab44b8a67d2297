use seqlens::base::{Action, State};
use seqlens::domain::{Domain, Recognized};
use seqlens::engine::{Engine, TransduceError};
use seqlens::lens::{Lens, LensError};
use seqlens::rule::Rule;
use seqlens::stack::Stack;

const A: State = State { index: 0 };
const B: State = State { index: 1 };

fn act(index: usize, state: State) -> Action {
    Action::new(index, state)
}

// AtoA, AtoB, BtoA, BtoB, all tagged with category A.
fn atoa() -> Action {
    act(0, A)
}
fn atob() -> Action {
    act(1, A)
}
fn btoa() -> Action {
    act(2, A)
}
fn btob() -> Action {
    act(3, A)
}

fn rule(from: Vec<Action>, to: Vec<Action>) -> Rule<Vec<Action>, Vec<Action>> {
    Rule { from, to }
}

fn scenario_lens() -> Lens {
    Lens::new(
        A,
        A,
        vec![
            rule(vec![atoa(), atoa()], vec![atoa()]),
            rule(vec![atoa(), atob()], vec![atob()]),
            rule(vec![atob(), btoa()], vec![atoa()]),
            rule(vec![atob(), btob()], vec![atob()]),
        ],
    )
    .unwrap()
}

#[test]
fn register_twice_returns_same_node() {
    let mut d = Domain::new();
    let s = vec![act(1, A), act(2, A), act(3, A)];
    let first = d.insert(&s);
    let len = d.len();
    let second = d.insert(&s);
    assert_eq!(first, second);
    assert_eq!(d.len(), len);
    assert_eq!(len, 3);
}

#[test]
fn register_empty_sequence_gives_none() {
    let mut d = Domain::new();
    assert_eq!(d.insert(&vec![]), None);
    assert_eq!(d.len(), 0);
}

#[test]
fn common_beginnings_share_nodes() {
    let mut d = Domain::new();
    let a = d.insert(&vec![act(1, A), act(2, A), act(3, A)]).unwrap();
    let b = d.insert(&vec![act(1, A), act(2, A), act(9, A)]).unwrap();
    assert_ne!(a, b);
    // only one node was added for the second sequence
    assert_eq!(d.len(), 4);
    assert_eq!(d.elem(a).next, d.elem(b).next);
    // common endings are not shared
    let c = d.insert(&vec![act(7, A), act(2, A), act(3, A)]).unwrap();
    assert_eq!(d.len(), 7);
    assert_ne!(d.elem(c).next, d.elem(a).next);
}

#[test]
fn sequence_reads_back_registered_order() {
    let mut d = Domain::new();
    let s = vec![act(4, A), act(5, B), act(6, A)];
    let i = d.insert(&s).unwrap();
    assert_eq!(d.sequence(i), s);
    let mut it = d.get(i);
    assert_eq!(it.next(&d), Some(act(6, A)));
    assert_eq!(it.next(&d), Some(act(5, B)));
    assert_eq!(it.next(&d), Some(act(4, A)));
    assert_eq!(it.next(&d), None);
}

#[test]
fn maximal_nodes_are_registration_heads() {
    let mut d = Domain::new();
    let a = d.insert(&vec![act(1, A), act(2, A)]).unwrap();
    let b = d.insert(&vec![act(1, A)]).unwrap();
    assert_eq!(d.iter_maximal(), vec![b, a]);
}

#[test]
fn recognize_registered_sequence_is_all() {
    let mut d = Domain::new();
    let s = vec![act(1, A), act(2, A), act(3, A)];
    let i = d.insert(&s).unwrap();
    let mut stack = Stack::from_vec(s.clone());
    assert_eq!(d.recognize_at_index(Some(i), &mut stack), Recognized::All);
    assert_eq!(stack.len(), 0);
}

#[test]
fn recognize_top_of_longer_stack_is_partial() {
    let mut d = Domain::new();
    let i = d.insert(&vec![act(2, A), act(3, A)]).unwrap();
    let mut stack = Stack::from_vec(vec![act(1, A), act(2, A), act(3, A)]);
    assert_eq!(d.recognize_at_index(Some(i), &mut stack), Recognized::Partial);
    assert_eq!(stack.len(), 1);
}

#[test]
fn recognize_failure_leaves_stack_unchanged() {
    let mut d = Domain::new();
    let i = d.insert(&vec![act(1, A), act(2, A), act(3, A)]).unwrap();
    let input = vec![act(5, A), act(2, A), act(3, A)];
    let mut stack = Stack::from_vec(input.clone());
    assert_eq!(d.recognize_at_index(Some(i), &mut stack), Recognized::Error);
    assert_eq!(stack.len(), 3);
    assert_eq!(stack.into_inner(), input);

    // a stack shorter than the pattern
    let short = vec![act(2, A), act(3, A)];
    let mut stack = Stack::from_vec(short.clone());
    assert_eq!(d.recognize_at_index(Some(i), &mut stack), Recognized::Error);
    assert_eq!(stack.into_inner(), short);
}

#[test]
fn recognize_without_node() {
    let d = Domain::new();
    let mut empty: Stack<Action> = Stack::from_vec(vec![]);
    assert_eq!(d.recognize_at_index(None, &mut empty), Recognized::All);
    let mut one = Stack::from_vec(vec![act(1, A)]);
    assert_eq!(d.recognize_at_index(None, &mut one), Recognized::Partial);
    assert_eq!(one.len(), 1);
}

#[test]
fn transduce_reduces_in_two_steps() {
    let engine = Engine::build(&scenario_lens());
    let out = engine.transduce(&vec![atoa(), atob(), btoa()], 10);
    assert_eq!(out.unwrap(), vec![atoa()]);
}

#[test]
fn transduce_single_symbol_fails_unchanged() {
    let engine = Engine::build(&scenario_lens());
    match engine.transduce(&vec![atoa()], 10) {
        Err(TransduceError::NoMatch(v)) => assert_eq!(v, vec![atoa()]),
        other => panic!("unexpected {:?}", other),
    }
}

#[test]
fn transduce_stuck_after_rewrite_returns_input() {
    let engine = Engine::build(&scenario_lens());
    // [BtoB, AtoB, BtoA] -> [BtoB, AtoA], on which no pattern lies
    match engine.transduce(&vec![btob(), atob(), btoa()], 10) {
        Err(TransduceError::NoMatch(v)) => assert_eq!(v, vec![btob(), atob(), btoa()]),
        other => panic!("unexpected {:?}", other),
    }
}

#[test]
fn transduce_step_limit_reports_cycle() {
    let lens = Lens::new(A, A, vec![rule(vec![atoa()], vec![atoa()])]).unwrap();
    let engine = Engine::build(&lens);
    // [AtoB, AtoA]: AtoA on top is replaced by itself forever
    match engine.transduce(&vec![atob(), atoa()], 5) {
        Err(TransduceError::CycleDetected) => {}
        other => panic!("unexpected {:?}", other),
    }
    // with no steps allowed at all
    match engine.transduce(&vec![atoa()], 0) {
        Err(TransduceError::CycleDetected) => {}
        other => panic!("unexpected {:?}", other),
    }
}

#[test]
fn transduce_replacement_keeps_its_order() {
    let lens = Lens::new(
        A,
        A,
        vec![rule(vec![act(1, A)], vec![act(2, A), act(3, A)]), rule(vec![act(2, A), act(3, A)], vec![act(4, A)])],
    )
    .unwrap();
    let engine = Engine::build(&lens);
    assert_eq!(engine.transduce(&vec![act(1, A)], 10).unwrap(), vec![act(2, A), act(3, A)]);
    assert_eq!(engine.transduce(&vec![act(2, A), act(3, A)], 10).unwrap(), vec![act(4, A)]);
}

#[test]
fn build_links_rules_to_nodes() {
    let engine = Engine::build(&scenario_lens());
    assert_eq!(engine.rules.len(), 4);
    for (k, r) in scenario_lens().rules().iter().enumerate() {
        assert_eq!(engine.targets.sequence(engine.rules[k].from), r.from);
        assert_eq!(engine.sources.sequence(engine.rules[k].to), r.to);
    }
}

#[test]
fn lens_rejects_empty_and_mistyped_rules() {
    assert_eq!(
        Lens::new(A, A, vec![rule(vec![], vec![atoa()])]).unwrap_err(),
        LensError::EmptySequence
    );
    assert_eq!(
        Lens::new(A, A, vec![rule(vec![atoa()], vec![])]).unwrap_err(),
        LensError::EmptySequence
    );
    assert_eq!(
        Lens::new(A, B, vec![rule(vec![atoa()], vec![atoa()])]).unwrap_err(),
        LensError::CategoryMismatch
    );
    assert!(Lens::new(A, B, vec![rule(vec![atoa()], vec![act(7, B)])]).is_ok());
}

#[test]
fn compose_joins_on_shared_sequence() {
    let c = State { index: 2 };
    let first = Lens::new(
        A,
        B,
        vec![rule(vec![act(1, A)], vec![act(10, B)]), rule(vec![act(2, A)], vec![act(11, B), act(12, B)])],
    )
    .unwrap();
    let second = Lens::new(
        B,
        c,
        vec![
            rule(vec![act(11, B), act(12, B)], vec![act(20, c)]),
            rule(vec![act(13, B)], vec![act(21, c)]),
            rule(vec![act(10, B)], vec![act(22, c)]),
        ],
    )
    .unwrap();
    let composed = first.compose(&second).unwrap();
    assert_eq!(composed.source(), A);
    assert_eq!(composed.target(), c);
    assert_eq!(
        composed.rules(),
        &vec![rule(vec![act(2, A)], vec![act(20, c)]), rule(vec![act(1, A)], vec![act(22, c)])]
    );
    assert_eq!(second.compose(&first).unwrap_err(), LensError::CategoryMismatch);
}

#[test]
fn compose_picks_first_partner() {
    let first = Lens::new(
        A,
        B,
        vec![rule(vec![act(1, A)], vec![act(10, B)]), rule(vec![act(2, A)], vec![act(10, B)])],
    )
    .unwrap();
    let second = Lens::new(B, B, vec![rule(vec![act(10, B)], vec![act(11, B)])]).unwrap();
    let composed = first.compose(&second).unwrap();
    assert_eq!(composed.rules(), &vec![rule(vec![act(1, A)], vec![act(11, B)])]);
}

#[test]
fn lens_transduce_reduces_in_two_steps() {
    let lens = scenario_lens();
    let stack = im_rc::Vector::from(vec![atoa(), atob(), btoa()]);
    assert_eq!(lens.transduce(stack, 10).unwrap(), im_rc::Vector::from(vec![atoa()]));
    assert_eq!(lens.reduce(&vec![atoa(), atob(), btoa()], 10).unwrap(), vec![atoa()]);
    // one step is not enough
    match lens.transduce(im_rc::Vector::from(vec![atoa(), atob(), btoa()]), 1) {
        Err(TransduceError::CycleDetected) => {}
        other => panic!("unexpected {:?}", other),
    }
}

#[test]
fn lens_transduce_single_symbol_fails_unchanged() {
    match scenario_lens().transduce(im_rc::Vector::from(vec![atoa()]), 10) {
        Err(TransduceError::NoMatch(v)) => assert_eq!(v, vec![atoa()]),
        other => panic!("unexpected {:?}", other),
    }
}

#[test]
fn first_listed_rule_wins() {
    let lens = Lens::new(A, A, vec![rule(vec![atoa()], vec![atob()]), rule(vec![atoa()], vec![btob()])]).unwrap();
    assert_eq!(lens.reduce(&vec![atoa()], 10).unwrap(), vec![atob()]);
    assert_eq!(Engine::build(&lens).transduce(&vec![atoa()], 10).unwrap(), vec![atob()]);
    assert_eq!(
        lens.transduce(im_rc::Vector::from(vec![atoa()]), 10).unwrap(),
        im_rc::Vector::from(vec![atob()])
    );
}

#[test]
fn lens_rewrites_lists_every_rewrite() {
    let lens = scenario_lens();
    let stack = im_rc::Vector::from(vec![atoa(), atob(), btoa()]);
    let out = lens.rewrites(stack).unwrap();
    assert_eq!(out.len(), 1);
    assert_eq!(out[0], im_rc::Vector::from(vec![atoa(), atoa()]));

    let lens = Lens::new(A, A, vec![rule(vec![atoa()], vec![atob()]), rule(vec![atoa(), atoa()], vec![btob()])]).unwrap();
    let out = lens.rewrites(im_rc::Vector::from(vec![atoa(), atoa()])).unwrap();
    assert_eq!(out, vec![im_rc::Vector::from(vec![atoa(), atob()]), im_rc::Vector::from(vec![btob()])]);
}

#[test]
fn lens_rewrites_without_match_returns_stack() {
    let lens = scenario_lens();
    let stack = im_rc::Vector::from(vec![btoa()]);
    assert_eq!(lens.rewrites(stack.clone()).unwrap_err(), stack);
}
