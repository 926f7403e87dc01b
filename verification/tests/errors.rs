use shortcut_autotyper::error::{ErrAutoType, ErrType};

#[test]
fn error_message_attachment() {
    let plain = ErrAutoType::new(ErrType::KeyCannotBeEmpty);
    assert_eq!(plain.get_type(), &ErrType::KeyCannotBeEmpty);
    assert_eq!(plain.get_message(), None);

    let detailed = ErrAutoType::new_with_message(
        ErrType::ArgumentMissing(String::from("config")),
        String::from("pass a value after the flag"),
    );
    assert_eq!(
        detailed.get_type(),
        &ErrType::ArgumentMissing(String::from("config"))
    );
    assert_eq!(
        detailed.get_message(),
        Some(&String::from("pass a value after the flag"))
    );
}

#[test]
fn errors_compare_by_kind() {
    let a = ErrAutoType::new(ErrType::SequenceNotExist(String::from("X")));
    let b = ErrAutoType::new_with_message(
        ErrType::SequenceNotExist(String::from("X")),
        String::from("anything"),
    );
    let c = ErrAutoType::new(ErrType::SequenceNotExist(String::from("Y")));
    assert_eq!(a, b);
    assert_ne!(a, c);
    assert_ne!(
        ErrAutoType::new(ErrType::RangeMustNotBeEmpty(3, 1)),
        ErrAutoType::new(ErrType::RangeMustNotBeEmpty(3, 2))
    );
}

#[test]
fn message_wording() {
    assert_eq!(
        ErrAutoType::new(ErrType::SequenceNotExist(String::from("X"))).to_message(),
        "Error: Key \"X\" not found"
    );
    assert_eq!(
        ErrType::RangeMustNotBeEmpty(3, 1).to_message(),
        "Range \"3..1\" is empty."
    );
    assert_eq!(
        ErrType::UnknownSequence(String::from("C")).to_message(),
        "Sequence \"C\" is not registered"
    );
    assert_eq!(
        ErrAutoType::new_with_message(
            ErrType::KeyCannotBeEmpty,
            String::from("while loading"),
        )
        .to_message(),
        "Error: Key cannot be empty. while loading"
    );
}
