use seqlens::base::{Action, State};
use seqlens::config::{Config, DiagramConfig, Domain, InterfaceConfig, LensConfig, RuleConfig, StateConfig};
use seqlens::engine::{Engine, TransduceError};
use seqlens::label::{ConfigError, IndexedHandler, LabelLayer, LabelMap, Labeled};
use seqlens::lens::{ActionHandle, Lens, StateHandle};
use seqlens::rule::Rule;

fn s(x: &str) -> String {
    x.to_string()
}

fn strings(xs: &[&str]) -> Vec<String> {
    xs.iter().map(|x| x.to_string()).collect()
}

fn config(actions_b: &[&str], rules: Vec<(Vec<&str>, Vec<&str>)>, source: &str) -> Config {
    Config {
        interfaces: vec![InterfaceConfig {
            label: s("I"),
            states: vec![
                StateConfig { label: s("A"), actions: strings(&["AtoA", "AtoB"]) },
                StateConfig { label: s("B"), actions: strings(actions_b) },
            ],
        }],
        lenses: vec![LensConfig {
            label: s("L"),
            source: Domain::Once { label: s(source) },
            target: Domain::Any { label: s(source) },
            rules: rules
                .into_iter()
                .map(|(f, t)| RuleConfig { from: strings(&f), to: strings(&t) })
                .collect(),
        }],
        diagram: DiagramConfig {
            where_diagrams: vec![],
            source: Domain::Once { label: s("A") },
            target: Domain::Once { label: s("A") },
        },
    }
}

#[test]
fn label_map_insert_get_reverse() {
    let mut m = LabelMap::new();
    let a = Labeled::Action(ActionHandle { index: 0 });
    let st = Labeled::State(StateHandle { index: 0 });
    m.insert(s("x"), a);
    m.insert(s("y"), st);
    assert_eq!(m.get(&s("x")), Some(a));
    assert_eq!(m.get(&s("z")), None);
    m.insert(s("x"), st);
    assert_eq!(m.get(&s("x")), Some(st));
    assert_eq!(m.iter(), vec![st, st]);
    m.insert(s("z"), a);
    assert_eq!(m.iter_actions(), vec![ActionHandle { index: 0 }]);
    assert_eq!(m.iter_states(), vec![StateHandle { index: 0 }, StateHandle { index: 0 }]);
    m.insert(s("z"), st);
    assert_eq!(m.iter_all().len(), 3);
    assert_eq!(m.reverse_lookup(st), Some(s("x")));
    assert_eq!(m.reverse_lookup(a), None);
    assert!(m.iter_actions().is_empty());
}

#[test]
fn indexed_handler_counts_up() {
    let mut h: IndexedHandler<StateHandle> = IndexedHandler::empty();
    assert_eq!(h.new(), StateHandle { index: 0 });
    assert_eq!(h.new(), StateHandle { index: 1 });
    assert_eq!(h.len(), 2);
}

#[test]
fn from_config_builds_lenses() {
    let c = config(&["BtoA", "BtoB"], vec![(vec!["AtoA", "AtoA"], vec!["AtoA"]), (vec!["AtoB"], vec!["AtoA"])], "A");
    let layer = LabelLayer::from_config(&c).unwrap();
    assert_eq!(layer.lenses.len(), 1);
    assert_eq!(layer.label_map.iter_all().len(), 6);
    assert_eq!(layer.label_map.get(&s("B")), Some(Labeled::State(StateHandle { index: 1 })));
    assert_eq!(layer.label_map.get(&s("BtoB")), Some(Labeled::Action(ActionHandle { index: 3 })));
    let out = layer.transduce(0, &strings(&["AtoA", "AtoA"]), 10).unwrap();
    assert_eq!(out.unwrap(), strings(&["AtoA"]));
    // one rewrite leaves [AtoB, AtoA], on which no pattern lies
    match layer.transduce(0, &strings(&["AtoB", "AtoA", "AtoA"]), 10).unwrap() {
        Err(TransduceError::NoMatch(v)) => assert_eq!(layer.untranslate(&v).unwrap(), strings(&["AtoB", "AtoA", "AtoA"])),
        other => panic!("unexpected {:?}", other),
    }
    let out = layer.transduce(0, &strings(&["AtoB"]), 10).unwrap();
    assert_eq!(out.unwrap(), strings(&["AtoA"]));
    match layer.transduce(0, &strings(&["AtoA"]), 10).unwrap() {
        Err(TransduceError::NoMatch(v)) => assert_eq!(v.len(), 1),
        other => panic!("unexpected {:?}", other),
    }
    assert_eq!(layer.transduce(1, &strings(&["AtoA"]), 10).unwrap_err(), ConfigError::UnknownLens);
    assert_eq!(layer.transduce(0, &strings(&["nope"]), 10).unwrap_err(), ConfigError::UnknownSymbol);
    assert_eq!(
        layer.translate(&strings(&["BtoA"])).unwrap(),
        vec![Action::new(2, State { index: 1 })]
    );
    assert_eq!(layer.untranslate(&vec![Action::new(3, State { index: 1 })]).unwrap(), strings(&["BtoB"]));
    assert_eq!(layer.untranslate(&vec![Action::new(30, State { index: 1 })]).unwrap_err(), ConfigError::UnknownSymbol);
}

#[test]
fn from_config_errors() {
    let dup = config(&["BtoA", "AtoB"], vec![], "A");
    assert_eq!(LabelLayer::from_config(&dup).unwrap_err(), ConfigError::DuplicateSymbolLabel);
    let dup_state = config(&["B"], vec![], "A");
    assert_eq!(LabelLayer::from_config(&dup_state).unwrap_err(), ConfigError::DuplicateSymbolLabel);
    let unknown_category = config(&["BtoA"], vec![], "C");
    assert_eq!(LabelLayer::from_config(&unknown_category).unwrap_err(), ConfigError::UnknownCategory);
    let action_as_category = config(&["BtoA"], vec![], "AtoA");
    assert_eq!(LabelLayer::from_config(&action_as_category).unwrap_err(), ConfigError::UnknownCategory);
    let unknown_symbol = config(&["BtoA"], vec![(vec!["AtoA"], vec!["zzz"])], "A");
    assert_eq!(LabelLayer::from_config(&unknown_symbol).unwrap_err(), ConfigError::UnknownSymbol);
    let empty = config(&["BtoA"], vec![(vec![], vec!["AtoA"])], "A");
    assert_eq!(LabelLayer::from_config(&empty).unwrap_err(), ConfigError::EmptySequence);
    let mismatch = config(&["BtoA"], vec![(vec!["BtoA"], vec!["AtoA"])], "A");
    assert_eq!(LabelLayer::from_config(&mismatch).unwrap_err(), ConfigError::CategoryMismatch);
    let mut composite = config(&["BtoA"], vec![], "A");
    composite.lenses[0].source = Domain::Composition {
        first: Box::new(Domain::Once { label: s("A") }),
        then: Box::new(Domain::Exactly { iterations: 2, label: s("A") }),
    };
    assert_eq!(LabelLayer::from_config(&composite).unwrap_err(), ConfigError::UnknownCategory);
}

#[test]
fn domain_state_label() {
    assert_eq!(Domain::Exactly { iterations: 3, label: s("A") }.state_label(), Some(&s("A")));
    let comp = Domain::Composition {
        first: Box::new(Domain::Any { label: s("A") }),
        then: Box::new(Domain::Any { label: s("B") }),
    };
    assert_eq!(comp.state_label(), None);
}

#[test]
fn engine_recognize_lists_single_rewrites() {
    let a = State { index: 0 };
    let x = |i: usize| Action::new(i, a);
    let lens = Lens::new(
        a,
        a,
        vec![
            Rule { from: vec![x(2)], to: vec![x(7)] },
            Rule { from: vec![x(1), x(2)], to: vec![x(8)] },
            Rule { from: vec![x(2)], to: vec![x(9), x(9)] },
            Rule { from: vec![x(5)], to: vec![x(6)] },
        ],
    )
    .unwrap();
    let engine = Engine::build(&lens);
    let out = engine.recognize(&vec![x(1), x(2)]);
    assert_eq!(out, vec![vec![x(1), x(7)], vec![x(1), x(9), x(9)], vec![x(8)]]);
    assert!(engine.recognize(&vec![x(3)]).is_empty());
}

#[test]
fn build_lens_gives_the_declared_lens() {
    let c = config(&["BtoA", "BtoB"], vec![(vec!["AtoA", "AtoB"], vec!["AtoA"])], "A");
    let layer = LabelLayer::from_config(&c).unwrap();
    let lens = layer.build_lens(&c.lenses[0]).unwrap();
    let a = State { index: 0 };
    assert_eq!(lens.source(), a);
    assert_eq!(lens.target(), a);
    assert_eq!(
        lens.rules(),
        &vec![Rule { from: vec![Action::new(0, a), Action::new(1, a)], to: vec![Action::new(0, a)] }]
    );
    assert_eq!(layer.lenses[0].rules(), lens.rules());
}

#[test]
fn label_transduce_first_rule_wins() {
    let c = config(&["BtoA"], vec![(vec!["AtoB"], vec!["AtoA"]), (vec!["AtoB"], vec!["AtoB", "AtoA"])], "A");
    let layer = LabelLayer::from_config(&c).unwrap();
    assert_eq!(layer.transduce(0, &strings(&["AtoB"]), 5).unwrap().unwrap(), strings(&["AtoA"]));
    match layer.transduce(0, &strings(&["AtoA", "AtoB"]), 5).unwrap() {
        Err(TransduceError::NoMatch(v)) => assert_eq!(v.len(), 2),
        other => panic!("unexpected {:?}", other),
    }
}
