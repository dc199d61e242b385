use waterpouring::glass::Glass;

#[test]
fn create_a_glass() {
    let current = 4;
    let capacity = 7;
    let glass = Glass::new(current, capacity);

    assert_eq!(glass, Glass { current, capacity });
}

#[test]
fn create_a_glass_from_string() {
    let current = 4;
    let capacity = 7;
    let s = format!("{}/{}", 4, 7);
    let glass = Glass::parse(s.as_str()).unwrap();

    assert_eq!(glass, Glass { current, capacity });
}

#[test]
fn create_an_empty_glass() {
    let capacity = 1;
    let glass = Glass::new_empty(capacity);

    assert_eq!(glass, Glass { current: 0, capacity });
}

#[test]
fn display_a_glass() {
    let s = "4/7";
    let glass = Glass::parse(s).unwrap();
    assert_eq!(s.to_owned(), glass.to_string());
}

#[test]
fn glass_glass_empty() {
    let capacity = 1;
    let glass = Glass::new_empty(capacity);

    assert!(glass.is_empty());
}

#[test]
fn glass_none_empty() {
    let capacity = 1;
    let glass = Glass::new(capacity, capacity);

    assert!(!glass.is_empty());
}

#[test]
fn glass_full() {
    let capacity = 1;
    let glass = Glass::new(capacity, capacity);

    assert!(glass.is_full());
}

#[test]
fn glass_not_full() {
    let capacity = 1;
    let glass = Glass::new(capacity - 1, capacity);

    assert!(!glass.is_full());
}

#[test]
fn glass_remaining_capacity() {
    let current = 7;
    let capacity = 10;
    let glass = Glass::new(current, capacity);

    assert_eq!(glass.remaining_capacity(), 3);
}

#[test]
fn glass_empty_remaining_capacity() {
    let capacity = 10;
    let glass = Glass::new_empty(capacity);

    assert_eq!(glass.remaining_capacity(), capacity);
}

#[test]
fn glass_full_remaining_capacity() {
    let capacity = 10;
    let glass = Glass::new(capacity, capacity);

    assert_eq!(glass.remaining_capacity(), 0);
}

#[test]
fn glass_empty() {
    let current = 3;
    let capacity = 10;
    let glass = Glass::new(current, capacity);

    let result = glass.empty();

    assert_eq!(result, Glass { current: 0, capacity });
}

#[test]
fn glass_fill() {
    let current = 3;
    let capacity = 10;
    let glass = Glass::new(current, capacity);

    let result = glass.fill();

    assert_eq!(result, Glass { current: capacity, capacity });
}

#[test]
fn glass_plus_quantity() {
    let current = 3;
    let capacity = 10;
    let glass = Glass::new(current, capacity);

    let result = glass.add(4);

    assert_eq!(result, Glass { current: 7, capacity });
}

#[test]
fn glass_plus_quantity_overflow() {
    let current = 3;
    let capacity = 10;
    let glass = Glass::new(current, capacity);

    let result = glass.add(12);

    assert_eq!(result, Glass { current: capacity, capacity });
}

#[test]
fn glass_minus_quantity() {
    let current = 7;
    let capacity = 10;
    let glass = Glass::new(current, capacity);

    let result = glass.sub(4);

    assert_eq!(result, Glass { current: 3, capacity });
}

#[test]
fn glass_minus_quantity_overflow() {
    let current = 3;
    let capacity = 10;
    let glass = Glass::new(current, capacity);

    let result = glass.sub(12);

    assert_eq!(result, Glass { current: 0, capacity });
}
