use puzzles::ticket::{
    assign_fields, compute_candidates, field_from, field_pattern, has_prefix, part1, part2,
    read_input, AssignError, Field, Input, ReadError, Ticket, ValueRange,
};

fn lines(text: &[&str]) -> Vec<String> {
    text.iter().map(|s| s.to_string()).collect()
}

const NOTES: [&str; 10] = [
    "class: 0-1 or 4-19",
    "row: 0-5 or 8-19",
    "seat: 0-13 or 16-19",
    "",
    "your ticket:",
    "11,12,13",
    "",
    "nearby tickets:",
    "3,9,18",
    "15,1,5",
];

#[test]
fn the_pattern_for_fields_reads_a_field() {
    let pattern = field_pattern().unwrap();
    assert_eq!(pattern.as_str(), r"^([^:]*): (\d+)-(\d+) or (\d+)-(\d+)$");
    let f = Field::new(&pattern, "departure location: 31-201 or 227-951").unwrap();
    assert_eq!(f.name, "departure location");
    assert_eq!(f.first, ValueRange { low: 31, high: 201 });
    assert_eq!(f.second, ValueRange { low: 227, high: 951 });
    assert!(Field::new(&pattern, "class: 1-3 or 5").is_none());
    assert!(Field::new(&pattern, "class 1-3 or 5-7").is_none());
    assert!(Field::new(&pattern, "class: 1-3 or 5-99999999999").is_none());
    assert!(Field::new(&pattern, "").is_none());
}

#[test]
fn a_field_needs_all_its_groups() {
    let text = |s: &str| Some(s.to_string());
    let whole = Some(vec![text("a: 1-2 or 3-4"), text("a"), text("1"), text("2"), text("3"), text("4")]);
    let f = field_from(&whole).unwrap();
    assert_eq!(f.name, "a");
    assert_eq!((f.first.low, f.first.high, f.second.low, f.second.high), (1, 2, 3, 4));
    assert!(field_from(&None).is_none());
    assert!(field_from(&Some(vec![text("a"), text("a"), text("1"), text("2"), text("3")])).is_none());
    assert!(field_from(&Some(vec![text("a"), text("a"), None, text("2"), text("3"), text("4")])).is_none());
    assert!(field_from(&Some(vec![text("a"), text("a"), text("x"), text("2"), text("3"), text("4")])).is_none());
}

#[test]
fn notes_are_read_section_by_section() {
    let pattern = field_pattern().unwrap();
    let input = read_input(&pattern, &lines(&NOTES)).ok().unwrap();
    assert_eq!(input.fields.len(), 3);
    assert_eq!(input.fields[2].name, "seat");
    assert_eq!(input.fields[2].second, ValueRange { low: 16, high: 19 });
    assert_eq!(input.my_ticket, Ticket { values: vec![11, 12, 13] });
    assert_eq!(input.nearby, vec![Ticket { values: vec![3, 9, 18] }, Ticket { values: vec![15, 1, 5] }]);
}

fn fault(text: &[&str]) -> ReadError {
    let pattern = field_pattern().unwrap();
    match read_input(&pattern, &lines(text)) {
        Ok(_) => panic!("the lines were read"),
        Err(e) => e,
    }
}

#[test]
fn notes_with_a_fault_are_refused() {
    assert_eq!(fault(&[]), ReadError::MissingTicket);
    assert_eq!(fault(&["class: 0-1 or 4-19"]), ReadError::MissingTicket);
    assert_eq!(fault(&["class: 0-1 or 4-19", "row"]), ReadError::BadField(1));
    assert_eq!(fault(&["class: 0-1 or 4-19", ""]), ReadError::PrematureEnd);
    assert_eq!(fault(&["", "my ticket:"]), ReadError::Unexpected(1));
    assert_eq!(fault(&["", "your ticket:"]), ReadError::PrematureEnd);
    assert_eq!(fault(&["", "your ticket:", "1,x"]), ReadError::BadTicket(2));
    assert_eq!(fault(&["", "your ticket:", "1,2"]), ReadError::PrematureEnd);
    assert_eq!(fault(&["", "your ticket:", "1,2", "3"]), ReadError::Unexpected(3));
    assert_eq!(fault(&["", "your ticket:", "1,2", ""]), ReadError::PrematureEnd);
    assert_eq!(fault(&["", "your ticket:", "1,2", "", "nearby:"]), ReadError::Unexpected(4));
    assert_eq!(
        fault(&["", "your ticket:", "1,2", "", "nearby tickets:", "1,2", "", "4"]),
        ReadError::BadTicket(6)
    );
    let pattern = field_pattern().unwrap();
    let empty = read_input(&pattern, &lines(&["", "your ticket:", "1,2", "", "nearby tickets:"]));
    assert!(empty.ok().unwrap().nearby.is_empty());
}

fn three_fields(a: &str, b: &str, c: &str) -> Vec<Field> {
    vec![
        Field { name: a.to_string(), first: ValueRange { low: 0, high: 1 }, second: ValueRange { low: 4, high: 19 } },
        Field { name: b.to_string(), first: ValueRange { low: 0, high: 5 }, second: ValueRange { low: 8, high: 19 } },
        Field { name: c.to_string(), first: ValueRange { low: 0, high: 13 }, second: ValueRange { low: 16, high: 19 } },
    ]
}

fn three_tickets() -> Vec<Ticket> {
    vec![
        Ticket { values: vec![3, 9, 18] },
        Ticket { values: vec![15, 1, 5] },
        Ticket { values: vec![5, 14, 9] },
    ]
}

#[test]
fn candidates_are_the_places_where_a_field_may_stand() {
    let fields = three_fields("class", "row", "seat");
    let tickets = three_tickets();
    let open = vec![None, None, None];
    assert_eq!(
        compute_candidates(&fields, &open, 3, &tickets),
        vec![vec![1, 2], vec![0, 1, 2], vec![2]]
    );
    let one_known = vec![None, None, Some(2)];
    assert_eq!(
        compute_candidates(&fields, &one_known, 3, &tickets),
        vec![vec![1], vec![0, 1], vec![]]
    );
    assert_eq!(compute_candidates(&fields, &open, 0, &Vec::new()), vec![vec![], vec![], vec![]]);
}

#[test]
fn every_field_finds_its_place() {
    let fields = three_fields("class", "row", "seat");
    assert_eq!(assign_fields(&fields, 3, &three_tickets()), Some(vec![1, 0, 2]));
    assert_eq!(assign_fields(&Vec::new(), 3, &three_tickets()), Some(vec![]));
    // With no tickets every field may stand anywhere, so no round decides.
    assert_eq!(assign_fields(&fields, 3, &Vec::new()), None);
}

#[test]
fn departure_values_are_multiplied() {
    let mine = Ticket { values: vec![11, 12, 13] };
    let plain = Input { fields: three_fields("class", "row", "seat"), my_ticket: Ticket { values: vec![11, 12, 13] }, nearby: three_tickets() };
    assert_eq!(part2(&plain, &three_tickets()), Ok(1));
    let named = Input {
        fields: three_fields("departure class", "row", "departure seat"),
        my_ticket: mine,
        nearby: three_tickets(),
    };
    assert_eq!(part2(&named, &three_tickets()), Ok(12 * 13));
    let all = Input {
        fields: three_fields("departure a", "departure b", "departure c"),
        my_ticket: Ticket { values: vec![11, 12, 13] },
        nearby: three_tickets(),
    };
    assert_eq!(part2(&all, &three_tickets()), Ok(11 * 12 * 13));
    assert_eq!(part2(&all, &Vec::new()), Err(AssignError::Stuck));
}

#[test]
fn a_product_that_is_too_large_is_refused() {
    let wide = ValueRange { low: i32::MIN, high: i32::MAX };
    let fields = vec![
        Field { name: "departure a".to_string(), first: ValueRange { low: 1, high: 1 }, second: ValueRange { low: 1, high: 1 } },
        Field { name: "departure b".to_string(), first: ValueRange { low: 2, high: 2 }, second: ValueRange { low: 2, high: 2 } },
        Field { name: "departure c".to_string(), first: ValueRange { low: 3, high: 3 }, second: wide },
    ];
    let tickets = vec![Ticket { values: vec![1, 2, 3] }];
    let big = i32::MAX;
    let input = Input { fields, my_ticket: Ticket { values: vec![big, big, big] }, nearby: Vec::new() };
    assert_eq!(part2(&input, &tickets), Err(AssignError::TooLarge));
}

#[test]
fn prefixes_of_names() {
    assert!(has_prefix("departure", "departure"));
    assert!(has_prefix("departure time", "departure"));
    assert!(!has_prefix("departur", "departure"));
    assert!(!has_prefix("a departure", "departure"));
    assert!(has_prefix("", ""));
}

#[test]
fn valid_tickets_feed_the_search_for_places() {
    let pattern = field_pattern().unwrap();
    let mut text = lines(&NOTES);
    text.push("5,14,9".to_string());
    text.push("99,1,2".to_string());
    let input = read_input(&pattern, &text).ok().unwrap();
    let (valid, rate) = part1(&input).unwrap();
    assert_eq!(rate, 99);
    assert_eq!(valid.len(), 3);
    assert_eq!(part2(&input, &valid), Ok(1));
}
