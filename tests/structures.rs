use seqlens::base::{Action, State};
use seqlens::chain::{ChainContext, Recognized as ChainRecognized, RecognizedIndex};
use seqlens::delegation::{Delegation, DelegationLens};
use seqlens::entity::{new_entity, EntityMap};
use seqlens::function::Function;
use seqlens::interaction::{Interaction, Operation, Query, Span};
use seqlens::queue::Queue;
use seqlens::relation::{next_value, Relation};
use seqlens::sequence::SequenceContext;
use seqlens::tree::Tree;

const A: State = State { index: 0 };
const B: State = State { index: 1 };

fn act(index: usize) -> Action {
    Action::new(index, A)
}

#[test]
fn tree_push_extend_and_walk() {
    let mut tree: Tree<u32> = Tree::new();
    assert_eq!(tree.top(), None);
    let root = tree.push(None, 10);
    assert_eq!(root, Some(0));
    let last = tree.extend(root, &vec![20, 30]);
    assert_eq!(last, Some(2));
    assert_eq!(tree.top(), Some(2));
    assert_eq!(tree.extend(last, &vec![]), last);
    let mut branch = tree.branch(last);
    assert_eq!(branch.index(), None);
    assert_eq!(branch.next(&tree), Some(30));
    assert_eq!(branch.index(), Some(2));
    assert_eq!(branch.next(&tree), Some(20));
    assert_eq!(branch.next(&tree), Some(10));
    assert_eq!(branch.next(&tree), None);
    let chain = Tree::from_vec(&vec![1u8, 2, 3]);
    assert_eq!(chain.nodes.len(), 3);
    assert_eq!(chain.nodes[2].parent, Some(1));
    assert_eq!(chain.nodes[0].parent, None);
}

#[test]
fn queue_is_last_in_first_out() {
    let mut q = Queue::new();
    assert_eq!(q.pop(), None);
    q.push(1);
    q.push(2);
    assert_eq!(q.pop(), Some(2));
    assert_eq!(q.pop(), Some(1));
    assert_eq!(q.pop(), None);
}

#[test]
fn interaction_queries_select() {
    let op = |s: usize, a: usize| Operation { state: State { index: s }, action: Action::new(a, State { index: s }) };
    let span = Span {
        interactions: vec![
            Interaction { source: op(0, 1), target: op(1, 2) },
            Interaction { source: op(0, 3), target: op(2, 4) },
            Interaction { source: op(5, 1), target: op(1, 2) },
        ],
    };
    let q = Interaction { source: Query::State { state: State { index: 0 } }, target: Query::Any };
    assert_eq!(span.interact(q), vec![span.interactions[0], span.interactions[1]]);
    let q = Interaction {
        source: Query::Any,
        target: Query::Operation { state: State { index: 1 }, action: Action::new(2, State { index: 1 }) },
    };
    assert_eq!(span.interact(q), vec![span.interactions[0], span.interactions[2]]);
    assert!(!Query::State { state: B }.matches(&op(0, 1)));
    assert!(Query::Any.matches(&op(0, 1)));
}

#[test]
fn function_basics() {
    let f = Function::new(vec![2, 0, 1]);
    assert_eq!(f.domain(), 3);
    assert_eq!(f.range(), Some(2));
    assert_eq!(f.apply(0), Some(2));
    assert_eq!(f.apply(3), None);
    assert_eq!(Function::new(vec![]).range(), None);
    let id = Function::identity(3);
    assert_eq!(id.apply(2), Some(2));
    let g = Function::new(vec![5, 6, 7]);
    let h = f.compose(&g);
    assert_eq!(h.domain(), 3);
    assert_eq!(h.apply(0), Some(7));
    assert_eq!(h.apply(1), Some(5));
    // images outside the second function's domain have none
    let short = Function::new(vec![9]);
    let k = f.compose(&short);
    assert_eq!(k.apply(0), None);
    assert_eq!(k.apply(1), Some(9));
}

#[test]
fn function_pullback_pairs_agreeing_points() {
    let f = Function::new(vec![1, 2]);
    let g = Function::new(vec![2, 1, 1]);
    let (down, across) = f.pullback(&g);
    assert_eq!(down.domain(), 6);
    // pairs (0,0) (0,1) (0,2) (1,0) (1,1) (1,2)
    let d: Vec<Option<usize>> = (0..6).map(|i| down.apply(i)).collect();
    let a: Vec<Option<usize>> = (0..6).map(|i| across.apply(i)).collect();
    assert_eq!(d, vec![None, Some(0), Some(0), Some(1), None, None]);
    assert_eq!(a, vec![None, Some(1), Some(2), Some(0), None, None]);
    let (p, q) = f.pushout(&g);
    assert_eq!((p.domain(), q.domain()), (0, 0));
}

#[test]
fn relation_algebra() {
    let r = Relation::new(vec![(1, 2), (1, 3), (4, 2), (1, 2)]);
    assert_eq!(r.items(), vec![(1, 2), (1, 3), (4, 2), (1, 2)]);
    let dom = r.domain();
    assert!(dom.contains(&1) && dom.contains(&4) && dom.len() == 2);
    let cod = r.codomain();
    assert!(cod.contains(&2) && cod.contains(&3) && cod.len() == 2);
    let fwd = r.forward_eval(1);
    assert_eq!(fwd.get(&2), Some(&2));
    assert_eq!(fwd.get(&3), Some(&1));
    assert_eq!(fwd.len(), 2);
    let bwd = r.backward_eval(2);
    assert_eq!(bwd.get(&1), Some(&2));
    assert_eq!(bwd.get(&4), Some(&1));
    assert_eq!(r.dual().items(), vec![(2, 1), (3, 1), (2, 4), (2, 1)]);
    assert_eq!(r.identity(&vec![7, 8]).items(), vec![(7, 7), (8, 8)]);
    let s = Relation::new(vec![(2, 9), (3, 8), (2, 7)]);
    assert_eq!(
        r.compose(&s).items(),
        vec![(1, 9), (1, 7), (1, 8), (4, 9), (4, 7), (1, 9), (1, 7)]
    );
}

#[test]
fn relation_product_and_coproduct_use_fresh_values() {
    let r = Relation::new(vec![(1, 2), (1, 3), (4, 2)]);
    let s = Relation::new(vec![(5, 6)]);
    let mut counter = 100;
    let (p, q) = r.product(&s, &mut counter);
    assert_eq!(p.items(), vec![(100, 1), (101, 4)]);
    assert_eq!(q.items(), vec![(102, 5)]);
    assert_eq!(counter, 103);
    let (i, j) = r.coproduct(&s, &mut counter);
    assert_eq!(i.items(), vec![(2, 103), (3, 104)]);
    assert_eq!(j.items(), vec![(6, 105)]);
    assert_eq!(counter, 106);
    let mut c = 7;
    assert_eq!(next_value(&mut c), 7);
    assert_eq!(c, 8);
}

#[test]
fn entity_map_labels() {
    let mut c = 3;
    assert_eq!(new_entity(&mut c), 3);
    assert_eq!(c, 4);
    let mut m = EntityMap::new();
    let a = m.insert("a".to_string()).unwrap();
    let b = m.insert("b".to_string()).unwrap();
    assert_eq!((a, b), (0, 1));
    assert_eq!(m.resolve(b), Some("b".to_string()));
    assert_eq!(m.resolve(9), None);
    assert_eq!(m.entity(&"a".to_string()), Some(a));
    assert_eq!(m.entity(&"z".to_string()), None);
    assert_eq!(
        m.entities(&vec!["b".to_string(), "q".to_string()]),
        vec![Some(b), None]
    );
    assert_eq!(m.resolve_all(&vec![a, 5]), vec![Some("a".to_string()), None]);
}

#[test]
fn chain_recognition() {
    let mut c = ChainContext::new();
    let ab = c.new_chain(&vec![act(1), act(2)]).unwrap();
    let xb = c.new_chain(&vec![act(9), act(2)]).unwrap();
    assert_eq!(c.new_chain(&vec![]), None);
    let mut it = c.get_chain(ab);
    assert_eq!(it.next(&c), Some(act(2)));
    assert_eq!(it.next(&c), Some(act(1)));
    assert_eq!(it.next(&c), None);
    match c.recognize_chain(vec![act(5), act(9), act(2)]) {
        RecognizedIndex::Partial { index, queue } => {
            assert_eq!(index, xb);
            assert_eq!(queue, vec![act(5)]);
        }
        other => panic!("unexpected {:?}", other),
    }
    match c.recognize_chain(vec![act(1), act(2)]) {
        RecognizedIndex::All { index, queue } => {
            assert_eq!(index, ab);
            assert!(queue.is_empty());
        }
        other => panic!("unexpected {:?}", other),
    }
    match c.recognize_chain(vec![act(3), act(2)]) {
        RecognizedIndex::Error { queue } => assert_eq!(queue, vec![act(3), act(2)]),
        other => panic!("unexpected {:?}", other),
    }
    match c.recognize_chain(vec![]) {
        RecognizedIndex::Error { queue } => assert!(queue.is_empty()),
        other => panic!("unexpected {:?}", other),
    }
    match c.recognize_chain_at_index(vec![act(2)], Some(ab)) {
        ChainRecognized::Error { queue } => assert_eq!(queue, vec![act(2)]),
        other => panic!("unexpected {:?}", other),
    }
    match c.recognize_chain_at_index(vec![act(1), act(2)], None) {
        ChainRecognized::Partial { queue } => assert_eq!(queue, vec![act(1), act(2)]),
        other => panic!("unexpected {:?}", other),
    }
    let done = ChainRecognized::All { queue: vec![] };
    match done.with_index(4) {
        RecognizedIndex::All { index, .. } => assert_eq!(index, 4),
        other => panic!("unexpected {:?}", other),
    }
}

#[test]
fn sequence_lookup_reads_back_to_front() {
    let mut s = SequenceContext::new();
    let i = s.new_sequence(&vec![act(1), act(2), act(3)]).unwrap();
    assert_eq!(s.get_sequence(&vec![act(3), act(2), act(1)]), Some(i));
    assert_eq!(s.get_sequence(&vec![act(1), act(2), act(3)]), None);
    assert!(s.is_same_sequence(&vec![act(3), act(2), act(1)], Some(i)));
    assert!(!s.is_same_sequence(&vec![act(3), act(2)], Some(i)));
    assert!(s.is_same_sequence(&vec![], None));
    assert_eq!(s.get_action(i), Some(act(3)));
    assert_eq!(s.get_action(99), None);
    let j = s.add_sequence(&vec![act(4)], Some(i)).unwrap();
    assert_eq!(s.get_sequence(&vec![act(4), act(3), act(2), act(1)]), Some(j));
    let mut it = s.get_action_sequence(j);
    assert_eq!(it.next(&s), Some(act(4)));
    assert_eq!(it.next(&s), Some(act(3)));
}

#[test]
fn delegation_lens_composes() {
    let first = DelegationLens {
        source: 0,
        target: 1,
        data: vec![Delegation { from: 10, to: 20 }, Delegation { from: 11, to: 21 }, Delegation { from: 10, to: 22 }],
    };
    assert_eq!(first.delegate_from(10), Some(20));
    assert_eq!(first.delegate_from(12), None);
    let second = DelegationLens {
        source: 1,
        target: 2,
        data: vec![Delegation { from: 30, to: 11 }, Delegation { from: 31, to: 99 }, Delegation { from: 32, to: 10 }],
    };
    let c = first.compose(&second);
    assert_eq!((c.source, c.target), (0, 2));
    assert_eq!(c.data, vec![Delegation { from: 30, to: 21 }, Delegation { from: 32, to: 20 }]);
}

#[test]
fn links_record_their_successors() {
    let mut c = ChainContext::new();
    let ab = c.new_chain(&vec![act(1), act(2)]).unwrap();
    let ax = c.new_chain(&vec![act(1), act(7)]).unwrap();
    let a = c.get_elem(ab).unwrap().prev.unwrap();
    assert_eq!(c.get_elem(a).unwrap().next, vec![ab, ax]);
    assert!(c.get_elem(ab).unwrap().next.is_empty());
    assert!(c.get_elem(99).is_none());
    let mut s = SequenceContext::new();
    let i = s.new_sequence(&vec![act(1)]).unwrap();
    let j = s.add_sequence(&vec![act(4)], Some(i)).unwrap();
    assert_eq!(s.get_elem(i).unwrap().next, vec![j]);
}
