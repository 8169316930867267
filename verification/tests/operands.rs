use blind_compute::operands::encrypt_each;

fn shifted(value: u64) -> Result<u64, String> {
    if value < 100 {
        Ok(value + 1000)
    } else {
        Err(format!("{} is too large", value))
    }
}

#[test]
fn each_value_is_encrypted_in_order() {
    assert_eq!(encrypt_each(shifted, vec![2, 4, 10]), Ok(vec![1002, 1004, 1010]));
}

#[test]
fn no_values_give_no_operands() {
    assert_eq!(encrypt_each(shifted, Vec::new()), Ok(Vec::new()));
}

#[test]
fn first_refused_value_gives_the_error() {
    assert_eq!(
        encrypt_each(shifted, vec![2, 400, 10, 500]),
        Err("400 is too large".to_string())
    );
}

#[test]
fn values_after_a_refused_one_are_not_encrypted() {
    let seen = std::cell::RefCell::new(Vec::new());
    let recording = |value: u64| {
        seen.borrow_mut().push(value);
        shifted(value)
    };
    assert!(encrypt_each(recording, vec![1, 2, 300, 4]).is_err());
    assert_eq!(*seen.borrow(), vec![1, 2, 300]);
}
