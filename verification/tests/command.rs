use shortcut_autotyper::error::{ATResult, ErrAutoType, ErrType};
use shortcut_autotyper::{Command, Times};

#[test]
fn valid_name() -> ATResult<()> {
    Command::valid_name("A")?;
    Command::valid_name("BCDE")?;
    assert_eq!(
        Command::valid_name(""),
        Err(ErrAutoType::new(ErrType::KeyCannotBeEmpty))
    );
    assert_eq!(
        Command::valid_name("1"),
        Err(ErrAutoType::new(ErrType::InvalidKeyFormat(String::from("1"))))
    );
    assert_eq!(
        Command::valid_name("A4"),
        Err(ErrAutoType::new(ErrType::InvalidKeyFormat(String::from("A4"))))
    );
    assert_eq!(
        Command::valid_name("/A"),
        Err(ErrAutoType::new(ErrType::InvalidKeyFormat(String::from("/A"))))
    );
    assert_eq!(
        Command::valid_name("B A"),
        Err(ErrAutoType::new(ErrType::InvalidKeyFormat(String::from("B A"))))
    );
    Ok(())
}

#[test]
fn times_from_str() -> ATResult<()> {
    assert_eq!(Times::from_str("1")?, Times::Number(1));
    assert_eq!(Times::from_str("5")?, Times::Number(5));
    assert_eq!(Times::from_str("57")?, Times::Number(57));
    assert_eq!(Times::from_str("5..7")?, Times::Range(5, 7));
    assert!(Times::from_str("5..").is_err());
    assert!(Times::from_str("..7").is_err());
    assert!(Times::from_str("5..=7").is_err());
    assert!(Times::from_str("57a37").is_err());
    assert!(Times::from_str("57..7").is_err());
    Ok(())
}

#[test]
fn command_from_str() -> ATResult<()> {
    assert_eq!(Command::from_str("A")?, Command::new("A"));
    assert_eq!(Command::from_str("AB")?, Command::new("AB"));
    assert_eq!(Command::from_str("A1")?, Command::new_number("A", 1));
    assert_eq!(Command::from_str("CDE5")?, Command::new_number("CDE", 5));
    assert_eq!(Command::from_str("A3..6")?, Command::new_range("A", 3, 6));
    assert!(Command::from_str("").is_err());
    assert!(Command::from_str("A B").is_err());
    assert!(Command::from_str("A 5").is_err());
    assert!(Command::from_str("4").is_err());
    Ok(())
}

#[test]
fn get_times() {
    let range_check = |start: usize, end: usize| {
        for _ in 0..100 {
            let times = Command::new_range("", start, end).get_times();
            assert!(times >= start);
            assert!(times < end);
        }
    };
    assert_eq!(Command::new("").get_times(), 1);
    assert_eq!(Command::new_number("", 1).get_times(), 1);
    assert_eq!(Command::new_number("", 5).get_times(), 5);
    assert_eq!(Command::new_number("", 66).get_times(), 66);
    range_check(10, 100);
    range_check(0, 3);
    range_check(3, 7);
}

#[test]
fn render_roundtrip() -> ATResult<()> {
    let commands = vec![
        Command::new("A"),
        Command::new("Hello"),
        Command::new_number("AB", 7),
        Command::new_number("X", 0),
        Command::new_range("Word", 2, 5),
        Command::new_range("Z", 3, 3),
    ];
    for c in commands {
        let text = c.render();
        assert_eq!(Command::from_str(&text)?, c);
    }
    assert_eq!(Command::new_range("A", 3, 5).render(), "A3..5");
    assert_eq!(Command::new_number("B", 12).render(), "B12");
    assert_eq!(Command::new("C").render(), "C");
    Ok(())
}

#[test]
fn count_at_machine_limit() -> ATResult<()> {
    let c = Command::new_number("Big", usize::MAX);
    assert_eq!(Command::from_str(&c.render())?, c);
    // one past the largest representable count is malformed
    let over = format!("{}0", usize::MAX);
    let e = Times::from_str(&over).unwrap_err();
    assert_eq!(e.get_type(), &ErrType::WrongSequenceArg(over));
    Ok(())
}

#[test]
fn range_degenerate_count() {
    for _ in 0..20 {
        assert_eq!(Command::new_range("A", 4, 4).get_times(), 4);
    }
}

#[test]
fn error_kinds_of_times() {
    let e = Times::from_str("5..").unwrap_err();
    assert_eq!(
        e.get_type(),
        &ErrType::WrongSequenceArg(String::from("5.."))
    );
    let e = Times::from_str("57..7").unwrap_err();
    assert_eq!(e.get_type(), &ErrType::RangeMustNotBeEmpty(57, 7));
}

#[test]
fn are_valid_names_collects_all() {
    let names = vec![
        String::from("good"),
        String::from(""),
        String::from("al so"),
        String::from("fine"),
        String::from("b4d"),
    ];
    let errors = Command::are_valid_names(&names).unwrap_err();
    assert_eq!(errors.len(), 3);
    assert_eq!(errors[0].get_type(), &ErrType::KeyCannotBeEmpty);
    assert_eq!(
        errors[1].get_type(),
        &ErrType::InvalidKeyFormat(String::from("al so"))
    );
    assert_eq!(
        errors[2].get_type(),
        &ErrType::InvalidKeyFormat(String::from("b4d"))
    );
    assert!(Command::are_valid_names(&vec![String::from("ok")]).is_ok());
}
