use zombie_agent::geometry::V2;
use zombie_agent::model::{Human, Zombie};
use zombie_agent::parser::{parse_count, parse_human, parse_number, parse_position, parse_v2, parse_zombie, split_line};

#[test]
fn splits_at_spaces() {
    let fields = split_line("12 -3  x");
    assert_eq!(fields, vec![b"12".to_vec(), b"-3".to_vec(), Vec::new(), b"x".to_vec()]);
    assert_eq!(split_line(""), vec![Vec::<u8>::new()]);
}

#[test]
fn reads_numbers() {
    assert_eq!(parse_number(b"42"), Some(42));
    assert_eq!(parse_number(b" -17\n"), Some(-17));
    assert_eq!(parse_number(b"4a"), None);
    assert_eq!(parse_number(b""), None);
    assert_eq!(parse_number(b"-"), None);
    assert_eq!(parse_number(b"1234567890123456789"), None);
}

#[test]
fn reads_entities() {
    assert_eq!(parse_human("1 8000 4500\n"), Some(Human { id: 1, pos: V2 { x: 8000, y: 4500 } }));
    assert_eq!(parse_human("1 8000"), None);
    assert_eq!(
        parse_zombie("3 0 4500 400 4500"),
        Some(Zombie { id: 3, pos: V2 { x: 0, y: 4500 }, next: V2 { x: 400, y: 4500 } })
    );
    assert_eq!(parse_zombie("3 0 4500 400 b"), None);
    assert_eq!(parse_position("0 9000"), Some(V2 { x: 0, y: 9000 }));
    assert_eq!(parse_v2(b"5", b"2000000"), None);
    assert_eq!(parse_count("3\n", 100), Some(3));
    assert_eq!(parse_count("101", 100), None);
    assert_eq!(parse_count("-1", 100), None);
}
