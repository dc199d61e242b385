use waterpouring::glass::Glass;
use waterpouring::operation::Operation;
use waterpouring::state::State;

#[test]
fn state_create_state() {
    let glasses = vec![Glass::new_empty(4)];
    let result = State::new(glasses.clone());
    assert_eq!(result, State::new(glasses))
}

#[test]
fn state_create_state_from_string() {
    let s = "4/7, 3/5, 0/2";
    let result = State::parse(s).unwrap();

    let glasses = vec![Glass::new(4, 7), Glass::new(3, 5), Glass::new(0, 2)];
    assert_eq!(result, State::new(glasses))
}

#[test]
fn state_display_state() {
    let s = "4/7, 3/5, 0/2";
    let state = State::parse(s).unwrap();

    assert_eq!(s.to_owned(), state.to_string());
}

#[test]
fn state_one_fill_glass() {
    let state = State::parse("10/10").unwrap();

    let result = state.available_operations();

    let expected: Vec<Operation> = vec![Operation::empty(0)];
    assert_eq!(&result[..], &expected[..])
}

#[test]
fn state_one_empty_glass() {
    let state = State::parse("0/10").unwrap();

    let result = state.available_operations();

    let expected: Vec<Operation> = vec![Operation::fill(0)];
    assert_eq!(&result[..], &expected[..])
}

#[test]
fn state_one_glass() {
    let state = State::parse("4/10").unwrap();

    let result = state.available_operations();

    let expected: Vec<Operation> = vec![Operation::fill(0), Operation::empty(0)];
    assert_eq!(&result[..], &expected[..])
}

#[test]
fn state_two_glass() {
    let state = State::parse("5/10, 1/5").unwrap();

    let result = state.available_operations();

    let expected: Vec<Operation> = vec![
        Operation::fill(0),
        Operation::empty(0),
        Operation::pour(0, 1),
        Operation::fill(1),
        Operation::empty(1),
        Operation::pour(1, 0),
    ];
    assert_eq!(&result[..], &expected[..])
}

#[test]
fn state_empty_first_glass() {
    let state = State::parse("4/5, 1/3, 0/2").unwrap();
    let op = Operation::empty(0);

    let result = state.apply(op);
    let end = result.to_string();

    assert_eq!(end, "0/5, 1/3, 0/2")
}

#[test]
fn state_empty_second_glass() {
    let state = State::parse("4/5, 1/3, 0/2").unwrap();
    let op = Operation::fill(1);

    let result = state.apply(op);
    let end = result.to_string();

    assert_eq!(end, "4/5, 3/3, 0/2")
}

#[test]
fn state_pour_first_to_last() {
    let state = State::parse("4/5, 1/3, 0/2").unwrap();
    let op = Operation::pour(0, 2);

    let result = state.apply(op);
    let end = result.to_string();

    assert_eq!(end, "2/5, 1/3, 2/2")
}
