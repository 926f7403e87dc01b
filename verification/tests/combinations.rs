use shortcut_autotyper::error::{ATResult, ErrAutoType, ErrType};
use shortcut_autotyper::Command as cmd;
use shortcut_autotyper::{Combinations, Sequences};

fn example_combination() -> Combinations {
    Combinations::new(
        Sequences::new(&[("A", "A1"), ("B", "B1"), ("AB", "AB1"), ("BA", "BA1")]).unwrap(),
        &[("X", "A2 B3..5")],
    )
    .unwrap()
}

fn no_args() -> Vec<String> {
    Vec::new()
}

#[test]
fn get_sequence() -> ATResult<()> {
    let combinations = example_combination();
    for _ in 0..1000 {
        let seq = combinations.get_sequence("X1", &no_args())?;
        assert!(seq.len() >= "A1A1B1B1B1".len());
        assert!(seq.len() <= "A1A1B1B1B1B1B1".len());
        assert!(seq.starts_with("A1A1B1B1B1"));
    }
    for _ in 0..1000 {
        let seq = combinations.get_sequence("X2", &no_args())?;
        assert!(seq.len() >= "A1A1B1B1B1".len() * 2, "Sequence: {}\n", seq);
        assert!(
            seq.len() <= "A1A1B1B1B1B1B1".len() * 2,
            "Sequence: {}\n",
            seq
        );
        assert!(seq.starts_with("A1A1B1B1B1"), "Sequence: {}\n", seq);
    }
    for _ in 0..1000 {
        let seq = combinations.get_sequence("X3..5", &no_args())?;
        assert!(seq.len() >= "A1A1B1B1B1".len() * 3, "Sequence: {}\n", seq);
        assert!(
            seq.len() <= "A1A1B1B1B1B1B1".len() * 5,
            "Sequence: {}\n",
            seq
        );
        assert!(seq.starts_with("A1A1B1B1B1"), "Sequence: {}\n", seq);
    }
    Ok(())
}

#[test]
fn decompose() -> ATResult<()> {
    assert_eq!(
        Combinations::decompose("A B C D")?,
        vec![cmd::new("A"), cmd::new("B"), cmd::new("C"), cmd::new("D")]
    );
    assert_eq!(
        Combinations::decompose("  A    B     ")?,
        vec![cmd::new("A"), cmd::new("B")]
    );
    Ok(())
}

fn get_sequences() -> Sequences {
    Sequences::new(&[("A", "A1"), ("B", "B1"), ("AB", "AB1"), ("BA", "BA1")]).unwrap()
}

fn get_combinations(combs: &[(&str, &str)]) -> Vec<(String, String)> {
    combs
        .iter()
        .map(|(key, value)| (String::from(*key), String::from(*value)))
        .collect()
}

#[test]
fn combinations_get_errors() {
    let errors = Combinations::new(get_sequences(), &[("X", "A3 B3..5")])
        .unwrap()
        .get_errors();
    assert_eq!(errors, Ok(()));
    let errors = Combinations {
        sequences: get_sequences(),
        combinations: get_combinations(&[("X", "A3 B~3..5"), ("Y", "A C3")]),
    }
    .get_errors()
    .unwrap_err();
    assert!(errors.contains(&ErrAutoType::new(ErrType::InvalidKeyFormat(String::from("B~")))));
    assert!(errors.contains(&ErrAutoType::new(ErrType::UnknownSequence(String::from("C")))));
}

#[test]
fn combinations_is_valid() {
    assert!(Combinations::new(get_sequences(), &[("X", "A3 B3..5")])
        .unwrap()
        .is_valid());
    assert!(!Combinations {
        sequences: get_sequences(),
        combinations: get_combinations(&[("X", "A3 B~3..5")]),
    }
    .is_valid());
    assert!(!Combinations {
        sequences: get_sequences(),
        combinations: get_combinations(&[("X", "A3 C3..5")]),
    }
    .is_valid());
}

#[test]
fn combinations_insert() -> ATResult<()> {
    let mut comb = Combinations {
        sequences: get_sequences(),
        combinations: Vec::new(),
    };
    comb.insert("X", "A5")?;
    assert!(comb.combinations.iter().any(|p| p.0 == "X"));
    comb.insert("Y", "B4 AB1..3")?;
    assert!(comb.combinations.iter().any(|p| p.0 == "Y"));

    assert_eq!(
        comb.insert("X", ""),
        Err(ErrAutoType::new(ErrType::KeyIsInCombinations(String::from("X"))))
    );
    assert_eq!(
        comb.insert("Y", ""),
        Err(ErrAutoType::new(ErrType::KeyIsInCombinations(String::from("Y"))))
    );

    assert_eq!(
        comb.insert("A", ""),
        Err(ErrAutoType::new(ErrType::KeyIsInSequences(String::from("A"))))
    );

    assert_eq!(
        comb.insert("AB", ""),
        Err(ErrAutoType::new(ErrType::KeyIsInSequences(String::from("AB"))))
    );

    Ok(())
}

#[test]
fn dangling_reference() {
    let mut comb = Combinations::new(get_sequences(), &[]).unwrap();
    assert_eq!(
        comb.insert("Y", "A D3"),
        Err(ErrAutoType::new(ErrType::SequenceNotExist(String::from("D"))))
    );
}

#[test]
fn nested_expansion_order() -> ATResult<()> {
    let seq = Sequences::new(&[("A", "a"), ("B", "b")])?;
    let comb = Combinations::new(seq, &[("X", "A2 B")])?;
    assert_eq!(comb.get_sequence("X1", &no_args())?, "aab");
    assert_eq!(comb.get_sequence("X2", &no_args())?, "aabaab");
    assert_eq!(comb.get_sequence("X0", &no_args())?, "");
    assert_eq!(comb.get_sequence("A B X1", &no_args())?, "abaab");
    Ok(())
}

#[test]
fn arguments_forwarded_through_combination() -> ATResult<()> {
    let seq = Sequences::new(&[("greet", "hi <0>! ")])?;
    let comb = Combinations::new(seq, &[("X", "greet2")])?;
    let args = vec![String::from("all")];
    assert_eq!(comb.get_sequence("X", &args)?, "hi all! hi all! ");
    Ok(())
}

#[test]
fn cyclic_reference_detected() {
    let comb = Combinations {
        sequences: get_sequences(),
        combinations: get_combinations(&[("X", "Y"), ("Y", "X")]),
    };
    let e = comb.get_sequence("X", &no_args()).unwrap_err();
    assert!(matches!(e.get_type(), ErrType::CyclicReference(_)));
}

#[test]
fn nested_combination_resolution() -> ATResult<()> {
    let comb = Combinations {
        sequences: Sequences::new(&[("A", "a"), ("B", "b")]).unwrap(),
        combinations: get_combinations(&[("X", "A B"), ("Y", "X2 A")]),
    };
    assert_eq!(comb.get_sequence("Y", &no_args())?, "ababa");
    Ok(())
}

#[test]
fn unknown_top_level_key() {
    let comb = example_combination();
    assert_eq!(
        comb.get_sequence("Q", &no_args()),
        Err(ErrAutoType::new(ErrType::SequenceNotExist(String::from("Q"))))
    );
}

#[test]
fn list_all_commands_sorted() {
    let comb = example_combination();
    assert_eq!(
        comb.list_all_commands(),
        vec![
            String::from("A"),
            String::from("AB"),
            String::from("B"),
            String::from("BA"),
            String::from("X"),
        ]
    );
}

#[test]
fn validation_skips_combination_names() {
    // Y references the combination X: whole-store validation checks only
    // names held by neither store, so this store is clean.
    let comb = Combinations {
        sequences: Sequences::new(&[("A", "A1")]).unwrap(),
        combinations: get_combinations(&[("X", "A"), ("Y", "X2 A")]),
    };
    assert!(comb.is_valid());
    assert_eq!(comb.get_errors(), Ok(()));
    assert_eq!(comb.get_sequence("Y", &no_args()).unwrap(), "A1A1A1");
}

#[test]
fn stored_value_parse_error_surfaces() {
    // resolving a combination whose stored value does not decompose
    // reports that token's own parse error
    let comb = Combinations {
        sequences: get_sequences(),
        combinations: get_combinations(&[("X", "A2 B~3..5")]),
    };
    assert_eq!(
        comb.get_sequence("X", &no_args()),
        Err(ErrAutoType::new(ErrType::InvalidKeyFormat(String::from("B~"))))
    );
}
