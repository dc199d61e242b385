use waterpouring::operation::{GlassId, Operation};

#[test]
fn operations_create_empty() {
    let glass: GlassId = 0;

    let result = Operation::empty(glass);

    assert_eq!(result, Operation::Empty { glass })
}

#[test]
fn display_empty() {
    let glass: GlassId = 0;

    let op = Operation::empty(glass);

    assert_eq!("Empty(0)".to_owned(), op.as_string())
}

#[test]
fn operations_create_fill() {
    let glass: GlassId = 0;

    let result = Operation::fill(glass);

    assert_eq!(result, Operation::Fill { glass })
}

#[test]
fn display_fill() {
    let glass: GlassId = 0;

    let op = Operation::fill(glass);

    assert_eq!("Fill(0)".to_owned(), op.as_string())
}

#[test]
fn operations_create_pour() {
    let from: GlassId = 0;
    let to: GlassId = 1;

    let result = Operation::pour(from, to);

    assert_eq!(result, Operation::Pour { from, to })
}

#[test]
fn display_pour() {
    let from: GlassId = 0;
    let to: GlassId = 1;

    let op = Operation::pour(from, to);

    assert_eq!("Pour(0->1)".to_owned(), op.as_string())
}

#[test]
fn operation_create_empty() {
    let glass: GlassId = 0;

    let result = Operation::empty(glass);

    assert_eq!(result, Operation::Empty { glass })
}

#[test]
fn operation_create_fill() {
    let glass: GlassId = 0;

    let result = Operation::fill(glass);

    assert_eq!(result, Operation::Fill { glass })
}

#[test]
fn operation_create_pour() {
    let from: GlassId = 0;
    let to: GlassId = 1;

    let result = Operation::pour(from, to);

    assert_eq!(result, Operation::Pour { from, to })
}
