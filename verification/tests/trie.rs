use cmdmat::Decider;
use cmdmat::Decision;
use cmdmat::LookError;
use cmdmat::MapOrDesc;
use cmdmat::Mapping;
use cmdmat::RegError;

type Accept = bool;
type Context = u32;
type Deny = ();
type Dec = fn(Vec<String>) -> (Decision<Deny>, Vec<Accept>);
type Fin = fn(&mut Context, &[Accept]) -> Result<String, String>;
type BoolMapping = Mapping<Accept, Deny, Fin, Dec>;

fn add_one(ctx: &mut Context, _: &[Accept]) -> Result<String, String> {
    *ctx += 1;
    Ok("".into())
}

fn toks(words: &[&str]) -> Vec<String> {
    words.iter().map(|w| w.to_string()).collect()
}

#[test]
fn single_mapping() {
    let mut mapping: BoolMapping = Mapping::default();
    mapping.register((vec![("add-one".to_string(), None)], add_one as Fin)).unwrap();
    let handler = mapping.lookup(&toks(&["add-one"])).unwrap();
    assert_eq![0, handler.1.len()];
    let mut ctx = 123;
    handler.0(&mut ctx, &handler.1).unwrap();
    assert_eq![124, ctx];
}

#[test]
fn mapping_does_not_exist() {
    let mapping: BoolMapping = Mapping::default();
    if let Err(err) = mapping.lookup(&toks(&["add-one"])) {
        assert_eq![LookError::UnknownMapping("add-one".into()), err];
    } else {
        assert![false];
    }
}

#[test]
fn overlapping_decider_fails() {
    fn decide(_: Vec<String>) -> (Decision<Deny>, Vec<Accept>) {
        (Decision::Deny(()), Vec::new())
    }

    const DECIDE: Decider<Dec> = Decider { description: "", decider: decide };

    let mut mapping: BoolMapping = Mapping::default();
    mapping.register((vec![("add-one".to_string(), None)], add_one as Fin)).unwrap();
    assert_eq![
        Err(RegError::DeciderAlreadyExists),
        mapping.register((vec![("add-one".to_string(), Some(DECIDE))], add_one as Fin))
    ];
}

#[test]
fn sequences_decider_fails() {
    fn decide(_: Vec<String>) -> (Decision<Deny>, Vec<Accept>) {
        (Decision::Deny(()), Vec::new())
    }

    const DECIDE: Decider<Dec> = Decider { description: "", decider: decide };

    let mut mapping: BoolMapping = Mapping::default();
    mapping.register((vec![("add-one".to_string(), Some(DECIDE))], add_one as Fin)).unwrap();
    if let Err(err) = mapping.register((vec![("add-one".to_string(), None)], add_one as Fin)) {
        assert_eq![RegError::FinalizerAlreadyExists, err];
    } else {
        assert![false];
    }
}

#[test]
fn decider_of_one() {
    fn decide(_: Vec<String>) -> (Decision<Deny>, Vec<Accept>) {
        (Decision::Accept(1), vec![true])
    }

    const DECIDE: Decider<Dec> = Decider { description: "", decider: decide };

    let mut mapping: BoolMapping = Mapping::default();
    mapping.register((vec![("add-one".to_string(), Some(DECIDE))], add_one as Fin)).unwrap();

    let out = mapping.lookup(&toks(&["add-one", "123"])).unwrap();
    assert_eq![1, out.1.len()];
    assert_eq![true, out.1[0]];
}

#[test]
fn decider_of_two_overrun() {
    fn decide(_: Vec<String>) -> (Decision<Deny>, Vec<Accept>) {
        (Decision::Accept(2), vec![true, true])
    }

    const DECIDE: Decider<Dec> = Decider { description: "", decider: decide };

    let mut mapping: BoolMapping = Mapping::default();
    mapping.register((vec![("add-one".to_string(), Some(DECIDE))], add_one as Fin)).unwrap();

    if let Err(err) = mapping.lookup(&toks(&["add-one", "123"])) {
        assert_eq![LookError::DeciderAdvancedTooFar, err];
    } else {
        assert![false];
    }
}

#[test]
fn decider_of_two() {
    fn decide(_: Vec<String>) -> (Decision<Deny>, Vec<Accept>) {
        (Decision::Accept(2), vec![true, false])
    }

    const DECIDE: Decider<Dec> = Decider { description: "", decider: decide };

    let mut mapping: BoolMapping = Mapping::default();
    mapping.register((vec![("add-one".to_string(), Some(DECIDE))], add_one as Fin)).unwrap();

    let output = mapping.lookup(&toks(&["add-one", "123", "456"])).unwrap().1;
    assert_eq![2, output.len()];
    assert_eq![true, output[0]];
    assert_eq![false, output[1]];
}

#[test]
fn decider_of_two_short_output() {
    fn decide(_: Vec<String>) -> (Decision<Deny>, Vec<Accept>) {
        (Decision::Accept(2), Vec::new())
    }

    const DECIDE: Decider<Dec> = Decider { description: "", decider: decide };

    let mut mapping: BoolMapping = Mapping::default();
    mapping.register((vec![("add-one".to_string(), Some(DECIDE))], add_one as Fin)).unwrap();

    let output = mapping.lookup(&toks(&["add-one", "123", "456"])).unwrap();
    assert_eq![0, output.1.len()];
}

#[test]
fn decider_of_many() {
    fn decide(input: Vec<String>) -> (Decision<Deny>, Vec<i32>) {
        let mut out = Vec::new();
        for i in input.iter() {
            if let Ok(number) = i.parse::<i32>() {
                out.push(number);
            } else {
                return (Decision::Deny(()), out);
            }
        }
        let consumed = input.len();
        (Decision::Accept(consumed), out)
    }

    type DecI32 = fn(Vec<String>) -> (Decision<Deny>, Vec<i32>);
    type FinI32 = fn(&mut Context, &[i32]) -> Result<String, String>;

    const DECIDE: Decider<DecI32> = Decider { description: "", decider: decide };

    fn do_sum(ctx: &mut u32, out: &[i32]) -> Result<String, String> {
        for i in out {
            *ctx += *i as u32;
        }
        Ok("".into())
    }

    let mut mapping: Mapping<i32, Deny, FinI32, DecI32> = Mapping::default();
    mapping.register((vec![("sum".to_string(), Some(DECIDE))], do_sum as FinI32)).unwrap();

    let handler = mapping.lookup(&toks(&["sum", "123", "456", "789"])).unwrap();
    assert_eq![3, handler.1.len()];

    let mut ctx = 0;
    handler.0(&mut ctx, &handler.1).unwrap();
    assert_eq![1368, ctx];
}

#[test]
fn nested() {
    let mut mapping: BoolMapping = Mapping::default();
    mapping
        .register((
            vec![("lorem".to_string(), None), ("ipsum".to_string(), None), ("dolor".to_string(), None)],
            add_one as Fin,
        ))
        .unwrap();

    mapping.lookup(&toks(&["lorem", "ipsum", "dolor"])).unwrap();
    if let Err(err) = mapping.lookup(&toks(&["lorem", "ipsum", "dolor", "exceed"])) {
        assert_eq![LookError::UnknownMapping("exceed".into()), err];
    } else {
        assert![false];
    }
    if let Err(err) = mapping.lookup(&toks(&["lorem", "ipsum"])) {
        assert_eq![LookError::FinalizerDoesNotExist, err];
    } else {
        assert![false];
    }
}

#[test]
fn finalizer_at_multiple_levels() {
    let mut mapping: BoolMapping = Mapping::default();
    mapping
        .register((
            vec![("lorem".to_string(), None), ("ipsum".to_string(), None), ("dolor".to_string(), None)],
            add_one as Fin,
        ))
        .unwrap();
    mapping
        .register((vec![("lorem".to_string(), None), ("ipsum".to_string(), None)], add_one as Fin))
        .unwrap();

    mapping.lookup(&toks(&["lorem", "ipsum", "dolor"])).unwrap();
    if let Err(err) = mapping.lookup(&toks(&["lorem", "ipsum", "dolor", "exceed"])) {
        assert_eq![LookError::UnknownMapping("exceed".into()), err];
    } else {
        assert![false];
    }
    mapping.lookup(&toks(&["lorem", "ipsum"])).unwrap();
}

#[test]
fn partial_lookup() {
    fn decide(_: Vec<String>) -> (Decision<Deny>, Vec<Accept>) {
        (Decision::Accept(0), Vec::new())
    }

    const DECIDE: Decider<Dec> = Decider { description: "Do nothing", decider: decide };

    fn consume_decide(input: Vec<String>) -> (Decision<Deny>, Vec<Accept>) {
        if input.is_empty() {
            (Decision::Deny(()), Vec::new())
        } else {
            (Decision::Accept(1), Vec::new())
        }
    }

    const CONSUME_DECIDE: Decider<Dec> = Decider {
        description: "Consume a single element, regardless of what it is",
        decider: consume_decide,
    };

    let mut mapping: BoolMapping = Mapping::default();
    mapping
        .register((
            vec![("lorem".to_string(), None), ("ipsum".to_string(), None), ("dolor".to_string(), None)],
            add_one as Fin,
        ))
        .unwrap();
    mapping
        .register((vec![("lorem".to_string(), None), ("ipsum".to_string(), None)], add_one as Fin))
        .unwrap();
    mapping
        .register((
            vec![("mirana".to_string(), None), ("ipsum".to_string(), Some(DECIDE))],
            add_one as Fin,
        ))
        .unwrap();
    mapping
        .register((
            vec![("consume".to_string(), Some(CONSUME_DECIDE)), ("dummy".to_string(), None)],
            add_one as Fin,
        ))
        .unwrap();

    let mut output = Vec::new();
    let part = mapping.partial_lookup(&toks(&["lorem", "ipsum"]), &mut output).unwrap();
    let node = match part {
        MapOrDesc::Mapping(node) => node,
        MapOrDesc::Desc(_) => panic!["expected a mapping"],
    };
    let keys = mapping.get_direct_keys(node);
    assert_eq![1, keys.len()];
    assert_eq![("dolor".to_string(), None, true), keys[0]];

    let part = mapping.partial_lookup(&toks(&["lorem"]), &mut output).unwrap();
    let node = match part {
        MapOrDesc::Mapping(node) => node,
        MapOrDesc::Desc(_) => panic!["expected a mapping"],
    };
    let keys = mapping.get_direct_keys(node);
    assert_eq![1, keys.len()];
    assert_eq![("ipsum".to_string(), None, true), keys[0]];

    let part = mapping.partial_lookup(&toks(&["mirana"]), &mut output).unwrap();
    let node = match part {
        MapOrDesc::Mapping(node) => node,
        MapOrDesc::Desc(_) => panic!["expected a mapping"],
    };
    let keys = mapping.get_direct_keys(node);
    assert_eq![1, keys.len()];
    assert_eq![("ipsum".to_string(), Some("Do nothing"), true), keys[0]];

    let mut output = Vec::new();
    let part = mapping.partial_lookup(&toks(&["consume", "123"]), &mut output).unwrap();
    let node = match part {
        MapOrDesc::Mapping(node) => node,
        MapOrDesc::Desc(_) => panic!["expected a mapping"],
    };
    let keys = mapping.get_direct_keys(node);
    assert_eq![1, keys.len()];
    assert_eq![("dummy".to_string(), None, true), keys[0]];

    let part = mapping.partial_lookup(&toks(&["consume"]), &mut output).unwrap();
    match part {
        MapOrDesc::Mapping(_) => panic!["expected a decider description"],
        MapOrDesc::Desc(desc) => {
            assert_eq!["Consume a single element, regardless of what it is", desc];
        },
    }
}

#[test]
fn consume_denies_on_empty() {
    fn consume_decide(input: Vec<String>) -> (Decision<Deny>, Vec<Accept>) {
        if input.is_empty() {
            (Decision::Deny(()), Vec::new())
        } else {
            (Decision::Accept(1), Vec::new())
        }
    }

    const CONSUME_DECIDE: Decider<Dec> = Decider {
        description: "Consume a single element, regardless of what it is",
        decider: consume_decide,
    };

    let mut mapping: BoolMapping = Mapping::default();
    mapping
        .register((
            vec![("consume".to_string(), Some(CONSUME_DECIDE)), ("dummy".to_string(), None)],
            add_one as Fin,
        ))
        .unwrap();

    if let Err(err) = mapping.lookup(&toks(&["consume"])) {
        assert_eq![
            LookError::DeciderDenied(
                "Consume a single element, regardless of what it is".to_string(),
                ()
            ),
            err
        ];
    } else {
        assert![false];
    }
}

#[test]
fn register_many_batch() {
    let mut mapping: BoolMapping = Mapping::default();
    mapping
        .register_many(vec![
            (vec![("alpha".to_string(), None)], add_one as Fin),
            (vec![("alpha".to_string(), None), ("beta".to_string(), None)], add_one as Fin),
            (vec![("gamma".to_string(), None)], add_one as Fin),
        ])
        .unwrap();
    mapping.lookup(&toks(&["alpha"])).unwrap();
    mapping.lookup(&toks(&["alpha", "beta"])).unwrap();
    mapping.lookup(&toks(&["gamma"])).unwrap();

    let second = mapping.register_many(vec![
        (vec![("delta".to_string(), None)], add_one as Fin),
        (vec![("gamma".to_string(), None)], add_one as Fin),
    ]);
    assert_eq![Err(RegError::FinalizerAlreadyExists), second];
    // the batch stopped at the failure, but what came before it stays
    mapping.lookup(&toks(&["delta"])).unwrap();
}

#[test]
fn failed_register_leaves_lookup_intact() {
    let mut mapping: BoolMapping = Mapping::default();
    mapping.register((vec![("add-one".to_string(), None)], add_one as Fin)).unwrap();
    assert_eq![
        Err(RegError::FinalizerAlreadyExists),
        mapping.register((vec![("add-one".to_string(), None)], add_one as Fin))
    ];
    let handler = mapping.lookup(&toks(&["add-one"])).unwrap();
    let mut ctx = 7;
    handler.0(&mut ctx, &handler.1).unwrap();
    assert_eq![8, ctx];
}

#[test]
fn empty_lookup_without_finalizer() {
    let mapping: BoolMapping = Mapping::default();
    if let Err(err) = mapping.lookup(&Vec::new()) {
        assert_eq![LookError::FinalizerDoesNotExist, err];
    } else {
        assert![false];
    }
}

#[test]
fn decider_consuming_whole_rest() {
    fn decide(input: Vec<String>) -> (Decision<Deny>, Vec<Accept>) {
        let consumed = input.len();
        (Decision::Accept(consumed), vec![true; consumed])
    }

    const DECIDE: Decider<Dec> = Decider { description: "<all>", decider: decide };

    let mut mapping: BoolMapping = Mapping::default();
    mapping.register((vec![("eat".to_string(), Some(DECIDE))], add_one as Fin)).unwrap();

    // consuming exactly the remainder is not an overrun
    let out = mapping.lookup(&toks(&["eat", "a", "b", "c"])).unwrap();
    assert_eq![3, out.1.len()];
}

#[test]
fn zero_consumption_still_descends() {
    type DecU8 = fn(Vec<String>) -> (Decision<Deny>, Vec<u8>);
    type FinU8 = fn(&mut Context, &[u8]) -> Result<String, String>;

    fn mark(_: Vec<String>) -> (Decision<Deny>, Vec<u8>) {
        // produce a value without consuming any token: traversal goes on
        (Decision::Accept(0), vec![9])
    }

    fn keep(_ctx: &mut Context, _args: &[u8]) -> Result<String, String> {
        Ok("".into())
    }

    const MARK: Decider<DecU8> = Decider { description: "<nothing>", decider: mark };

    let mut mapping: Mapping<u8, Deny, FinU8, DecU8> = Mapping::default();
    mapping
        .register((
            vec![("zero".to_string(), Some(MARK)), ("deep".to_string(), None)],
            keep as FinU8,
        ))
        .unwrap();

    let out = mapping.lookup(&toks(&["zero", "deep"])).unwrap();
    assert_eq![vec![9], out.1];
}

#[test]
fn decider_values_arrive_in_segment_order() {
    type DecU8 = fn(Vec<String>) -> (Decision<Deny>, Vec<u8>);
    type FinU8 = fn(&mut Context, &[u8]) -> Result<String, String>;

    fn first(_: Vec<String>) -> (Decision<Deny>, Vec<u8>) {
        (Decision::Accept(1), vec![10])
    }

    fn second(_: Vec<String>) -> (Decision<Deny>, Vec<u8>) {
        (Decision::Accept(1), vec![20])
    }

    fn keep(_ctx: &mut Context, _args: &[u8]) -> Result<String, String> {
        Ok("".into())
    }

    const FIRST: Decider<DecU8> = Decider { description: "<x>", decider: first };
    const SECOND: Decider<DecU8> = Decider { description: "<y>", decider: second };

    let mut mapping: Mapping<u8, Deny, FinU8, DecU8> = Mapping::default();
    mapping
        .register((
            vec![("a".to_string(), Some(FIRST)), ("b".to_string(), Some(SECOND))],
            keep as FinU8,
        ))
        .unwrap();

    let out = mapping.lookup(&toks(&["a", "x", "b", "y"])).unwrap();
    assert_eq![vec![10, 20], out.1];
}

#[test]
fn root_direct_keys() {
    let mut mapping: BoolMapping = Mapping::default();
    mapping.register((vec![("solo".to_string(), None)], add_one as Fin)).unwrap();
    let keys = mapping.get_direct_keys(0);
    assert_eq![1, keys.len()];
    assert_eq![("solo".to_string(), None, true), keys[0]];
}
