use shortcut_autotyper::error::{ATResult, ErrAutoType, ErrType};
use shortcut_autotyper::Sequences;

fn example_sequences() -> Sequences {
    Sequences::new(&[("A", "A1"), ("B", "B1"), ("AB", "AB1"), ("BA", "BA1")]).unwrap()
}

fn no_args() -> Vec<String> {
    Vec::new()
}

#[test]
fn new() -> ATResult<()> {
    Sequences::new(&[("A", "A1"), ("B", "B1")])?;
    Ok(())
}

#[test]
fn sequence_insert() {
    let mut seq = Sequences::default();
    assert!(seq.insert("A", "").is_ok());
    assert!(seq.insert("asdf", "").is_ok());
    assert!(seq.insert("aSdF", "").is_ok());
    assert!(seq.insert("asdf", "").is_err());
    assert!(seq.insert("asdf1", "").is_err());
    assert!(seq.insert("as12df1", "").is_err());
    assert!(seq.insert("asdf.", "").is_err());
    assert!(seq.insert("asdf/", "").is_err());
}

#[test]
fn basic_get_sequence() {
    let seq = example_sequences();
    assert_eq!(seq.get_sequence("A", &no_args()), Ok(String::from("A1")));
    assert_eq!(seq.get_sequence("AB", &no_args()), Ok(String::from("AB1")));
    assert_eq!(
        seq.get_sequence("X", &no_args()),
        Err(ErrAutoType::new(ErrType::SequenceNotExist(String::from("X"))))
    );
    assert_eq!(
        seq.get_sequence("Y", &no_args()),
        Err(ErrAutoType::new(ErrType::SequenceNotExist(String::from("Y"))))
    );
}

#[test]
fn numbered_get_sequence() -> ATResult<()> {
    let seq = example_sequences();
    assert_eq!(&seq.get_sequence("B1", &no_args())?, "B1");
    assert_eq!(&seq.get_sequence("BA1", &no_args())?, "BA1");

    assert_eq!(&seq.get_sequence("A2", &no_args())?, "A1A1");
    assert_eq!(&seq.get_sequence("B2", &no_args())?, "B1B1");

    assert_eq!(
        seq.get_sequence("X2", &no_args()),
        Err(ErrAutoType::new(ErrType::SequenceNotExist(String::from("X"))))
    );
    assert_eq!(
        seq.get_sequence("Y5", &no_args()),
        Err(ErrAutoType::new(ErrType::SequenceNotExist(String::from("Y"))))
    );

    Ok(())
}

#[test]
fn range_get_sequence() -> ATResult<()> {
    let seq = example_sequences();
    let repeat_check = |sequence: &str, output: &str, min: usize, max: usize| -> ATResult<()> {
        let mut generated;
        for _ in 0..=100 {
            generated = seq.get_sequence(sequence, &no_args())?;
            assert!(generated.len() % output.len() == 0);
            assert!(generated.len() / output.len() >= min);
            assert!(generated.len() / output.len() <= max);
        }
        Ok(())
    };

    repeat_check("B2..5", "B1", 2, 5)?;
    repeat_check("A2..4", "A1", 2, 4)?;
    repeat_check("AB5..10", "AB1", 5, 10)?;

    Ok(())
}

#[test]
fn sequence_get_errors() {
    assert_eq!(example_sequences().get_errors(), Ok(()));

    let seq = Sequences(vec![
        (String::from(""), String::from("")),
        (String::from("1"), String::from("")),
        (String::from("A4"), String::from("")),
        (String::from("/A"), String::from("")),
        (String::from("B A"), String::from("")),
    ]);
    let errors = seq.get_errors().unwrap_err();

    assert_eq!(errors.len(), 5);
    assert!(errors.contains(&ErrAutoType::new(ErrType::KeyCannotBeEmpty)));
    assert!(errors.contains(&ErrAutoType::new(ErrType::InvalidKeyFormat(String::from("1")))));
    assert!(errors.contains(&ErrAutoType::new(ErrType::InvalidKeyFormat(String::from("A4")))));
    assert!(errors.contains(&ErrAutoType::new(ErrType::InvalidKeyFormat(String::from("/A")))));
    assert!(errors.contains(&ErrAutoType::new(ErrType::InvalidKeyFormat(String::from("B A")))));
}

#[test]
fn sequence_is_valid() {
    assert!(example_sequences().is_valid());

    let seq = Sequences(vec![(String::from("1"), String::from(""))]);
    assert!(!seq.is_valid());

    let seq = Sequences(vec![(String::from("A4"), String::from(""))]);
    assert!(!seq.is_valid());

    let seq = Sequences(vec![(String::from("/A"), String::from(""))]);
    assert!(!seq.is_valid());

    let seq = Sequences(vec![(String::from("B A"), String::from(""))]);
    assert!(!seq.is_valid());
}

#[test]
fn fixed_count_multiplies_length() -> ATResult<()> {
    let seq = example_sequences();
    for n in 0..6usize {
        let key = format!("AB{}", n);
        let out = seq.get_sequence(&key, &no_args())?;
        assert_eq!(out.len(), n * "AB1".len());
        assert_eq!(out, "AB1".repeat(n));
    }
    Ok(())
}

#[test]
fn sequence_with_arguments() -> ATResult<()> {
    let seq = Sequences::new(&[("greet", "hello <1>, from <0>")])?;
    let args = vec![String::from("me"), String::from("you")];
    assert_eq!(
        seq.get_sequence("greet", &args)?,
        "hello you, from me"
    );
    assert_eq!(
        seq.get_sequence("greet2", &args)?,
        "hello you, from mehello you, from me"
    );
    Ok(())
}

#[test]
fn get_keys_in_store_order() {
    let seq = example_sequences();
    assert_eq!(
        seq.get_keys(),
        vec![
            String::from("A"),
            String::from("B"),
            String::from("AB"),
            String::from("BA"),
        ]
    );
    assert_eq!(seq.get("A"), Some(&String::from("A1")));
    assert_eq!(seq.get("Z"), None);
}
