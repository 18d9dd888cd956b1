use timetable::builder::GeneratorBuilder;
use timetable::catalog::{Code, Commission, Commissions, GeneratorError, Subject};
use timetable::filters::{CountBounds, Filter};
use timetable::generator::{generate, ChoiceGenerator, CommissionRef};
use timetable::serializer::describe;
use timetable::time::{Day, DaysOfTheWeek, Span, Task, Time, Week};

fn time(hour: u8, minutes: u8) -> Time {
    Time { hour, minutes }
}

fn span(h0: u8, h1: u8) -> Span {
    Span { start: time(h0, 0), end: time(h1, 0) }
}

fn code(text: &str) -> Code {
    match Code::parse(text) {
        Ok(c) => c,
        Err(_) => panic!("not a code: {}", text),
    }
}

fn commission(subject: Code, name: &str, blocks: &[(DaysOfTheWeek, u8, u8)]) -> Commission {
    let mut schedule = Week::empty();
    for (day, h0, h1) in blocks {
        schedule.add_task(
            *day,
            Task { subject, span: span(*h0, *h1), buildings: vec![format!("Building {}", name)] },
        );
    }
    Commission { names: vec![name.to_string()], schedule, subject }
}

/// Subject A (mandatory, 3 credits): M1 Mon 08-10, M2 Mon 10-12.
fn subject_a() -> Subject {
    let c = code("01.01");
    Subject {
        code: c,
        name: "A".to_string(),
        credits: 3,
        commissions: vec![
            commission(c, "M1", &[(DaysOfTheWeek::Monday, 8, 10)]),
            commission(c, "M2", &[(DaysOfTheWeek::Monday, 10, 12)]),
        ],
    }
}

/// Subject B (optional, 4 credits): N1 Mon 09-11, N2 Tue 09-11.
fn subject_b() -> Subject {
    let c = code("02.02");
    Subject {
        code: c,
        name: "B".to_string(),
        credits: 4,
        commissions: vec![
            commission(c, "N1", &[(DaysOfTheWeek::Monday, 9, 11)]),
            commission(c, "N2", &[(DaysOfTheWeek::Tuesday, 9, 11)]),
        ],
    }
}

fn catalog() -> Commissions {
    Commissions::new(vec![subject_a(), subject_b()])
}

fn builder() -> GeneratorBuilder {
    let b = catalog().create_generator_builder();
    let b = b.set_mandatory_codes(vec!["01.01".to_string()]).ok().unwrap();
    b.set_optional_codes(vec!["02.02".to_string()]).ok().unwrap()
}

fn drain(mut g: ChoiceGenerator) -> Vec<Vec<Option<usize>>> {
    let mut out = Vec::new();
    while let Some(c) = g.next_choice() {
        out.push(c);
    }
    out
}

const M1: Option<usize> = Some(0);
const M2: Option<usize> = Some(1);
const N1: Option<usize> = Some(0);
const N2: Option<usize> = Some(1);
const SKIP: Option<usize> = None;

#[test]
fn example_without_exceptions() {
    let choices = drain(builder().build().ok().unwrap());
    assert_eq!(choices, vec![vec![M1, N2], vec![M1, SKIP], vec![M2, N2], vec![M2, SKIP]]);
}

#[test]
fn example_with_exception() {
    let b = builder()
        .set_collision_exceptions(vec![(
            ("01.01".to_string(), "M1".to_string()),
            ("02.02".to_string(), "N1".to_string()),
        )])
        .ok()
        .unwrap();
    let choices = drain(b.build().ok().unwrap());
    assert_eq!(choices.len(), 5);
    assert_eq!(
        choices,
        vec![vec![M1, N1], vec![M1, N2], vec![M1, SKIP], vec![M2, N2], vec![M2, SKIP]]
    );
}

#[test]
fn exception_is_unordered() {
    let b = builder()
        .set_collision_exceptions(vec![(
            ("02.02".to_string(), "N1".to_string()),
            ("01.01".to_string(), "M1".to_string()),
        )])
        .ok()
        .unwrap();
    let choices = drain(b.build().ok().unwrap());
    assert!(choices.contains(&vec![M1, N1]));
    assert!(!choices.contains(&vec![M2, N1]));
}

#[test]
fn example_min_credits() {
    let b = builder().set_min_credit_count(Some(5));
    let choices = drain(b.build().ok().unwrap());
    assert_eq!(choices, vec![vec![M1, N2], vec![M2, N2]]);
}

#[test]
fn example_max_subjects() {
    let b = builder().set_max_subject_count(Some(1));
    let choices = drain(b.build().ok().unwrap());
    assert_eq!(choices, vec![vec![M1, SKIP], vec![M2, SKIP]]);
}

#[test]
fn min_subjects_and_max_credits() {
    let b = builder().set_min_subject_count(Some(2)).set_max_credit_count(Some(7));
    assert_eq!(drain(b.build().ok().unwrap()), vec![vec![M1, N2], vec![M2, N2]]);
    let b = builder().set_max_credit_count(Some(6));
    assert_eq!(drain(b.build().ok().unwrap()), vec![vec![M1, SKIP], vec![M2, SKIP]]);
}

#[test]
fn min_above_max_yields_nothing() {
    let b = builder().set_min_credit_count(Some(8)).set_max_credit_count(Some(2));
    assert!(drain(b.build().ok().unwrap()).is_empty());
}

#[test]
fn chained_filters_commute() {
    let one = generate(vec![subject_a()], vec![subject_b()], vec![])
        .filter_choices(Filter::CreditCount(CountBounds::new(Some(5), None)))
        .filter_choices(Filter::SubjectCount(CountBounds::new(None, Some(2))));
    let two = generate(vec![subject_a()], vec![subject_b()], vec![])
        .filter_choices(Filter::SubjectCount(CountBounds::new(None, Some(2))))
        .filter_choices(Filter::CreditCount(CountBounds::new(Some(5), None)));
    assert_eq!(drain(one), drain(two));
}

#[test]
fn dropping_a_bound_widens() {
    let narrow = drain(builder().set_min_credit_count(Some(5)).build().ok().unwrap());
    let wide = drain(builder().build().ok().unwrap());
    for c in &narrow {
        assert!(wide.contains(c));
    }
    assert!(wide.len() > narrow.len());
}

#[test]
fn generators_from_same_inputs_agree() {
    let one = drain(generate(vec![subject_a()], vec![subject_b()], vec![]));
    let two = drain(generate(vec![subject_a()], vec![subject_b()], vec![]));
    assert_eq!(one, two);
    assert_eq!(one.len(), 4);
}

#[test]
fn exhausted_generator_stays_exhausted() {
    let mut g = generate(vec![subject_a()], vec![], vec![]);
    assert_eq!(g.next_choice(), Some(vec![M1]));
    assert_eq!(g.next_choice(), Some(vec![M2]));
    assert_eq!(g.next_choice(), None);
    assert_eq!(g.next_choice(), None);
}

#[test]
fn no_subjects_gives_one_empty_choice() {
    assert_eq!(drain(generate(vec![], vec![], vec![])), vec![Vec::<Option<usize>>::new()]);
}

#[test]
fn mandatory_without_commissions_gives_nothing() {
    let empty = Subject { code: code("03.03"), name: "C".to_string(), credits: 2, commissions: vec![] };
    assert!(drain(generate(vec![subject_a(), empty], vec![subject_b()], vec![])).is_empty());
}

#[test]
fn optional_without_commissions_only_skips() {
    let empty = Subject { code: code("03.03"), name: "C".to_string(), credits: 2, commissions: vec![] };
    assert_eq!(drain(generate(vec![subject_a()], vec![empty], vec![])), vec![vec![M1, SKIP], vec![M2, SKIP]]);
}

#[test]
fn mandatory_pair_that_always_collides() {
    let c = code("04.04");
    let d = Subject {
        code: c,
        name: "D".to_string(),
        credits: 1,
        commissions: vec![commission(c, "X", &[(DaysOfTheWeek::Monday, 7, 13)])],
    };
    assert!(drain(generate(vec![subject_a(), d], vec![], vec![])).is_empty());
}

#[test]
fn exception_by_reference_in_generate() {
    let exc = vec![(
        CommissionRef { code: code("01.01"), index: 1 },
        CommissionRef { code: code("02.02"), index: 0 },
    )];
    let choices = drain(generate(vec![subject_a()], vec![subject_b()], exc));
    assert_eq!(choices, vec![vec![M1, N2], vec![M1, SKIP], vec![M2, N1], vec![M2, N2], vec![M2, SKIP]]);
}

#[test]
fn touching_spans_do_not_collide() {
    let a = span(8, 10);
    let b = span(10, 12);
    assert!(!a.overlaps(&b));
    assert!(!b.overlaps(&a));
    assert!(span(8, 10).overlaps(&span(9, 11)));
    assert!(span(9, 11).overlaps(&span(8, 10)));
    assert!(span(8, 12).overlaps(&span(9, 10)));
}

#[test]
fn time_in_minutes() {
    assert_eq!(time(0, 0).minutes_since_midnight(), 0);
    assert_eq!(time(9, 30).minutes_since_midnight(), 570);
    assert_eq!(time(23, 59).minutes_since_midnight(), 1439);
}

fn unsorted_week() -> Week {
    let c = code("05.05");
    let mut w = Week::empty();
    w.add_task(DaysOfTheWeek::Wednesday, Task { subject: c, span: span(14, 16), buildings: vec![] });
    w.add_task(DaysOfTheWeek::Wednesday, Task { subject: c, span: span(8, 9), buildings: vec![] });
    w.add_task(DaysOfTheWeek::Wednesday, Task { subject: c, span: span(11, 12), buildings: vec![] });
    w
}

fn starts(w: &Week, day: usize) -> Vec<u8> {
    w.days[day].tasks.iter().map(|t| t.span.start.hour).collect()
}

#[test]
fn optimize_sorts_by_start() {
    let mut w = unsorted_week();
    w.optimize();
    assert_eq!(starts(&w, 2), vec![8, 11, 14]);
}

#[test]
fn optimize_twice_keeps_collisions() {
    let c = code("06.06");
    let mut other = Week::empty();
    other.add_task(DaysOfTheWeek::Wednesday, Task { subject: c, span: span(9, 11), buildings: vec![] });
    let mut quiet = Week::empty();
    quiet.add_task(DaysOfTheWeek::Wednesday, Task { subject: c, span: span(12, 14), buildings: vec![] });
    let mut w = unsorted_week();
    w.optimize();
    let once = (w.overlaps(&other), w.overlaps(&quiet));
    w.optimize();
    let twice = (w.overlaps(&other), w.overlaps(&quiet));
    assert_eq!(once, (false, false));
    assert_eq!(once, twice);
    assert_eq!(starts(&w, 2), vec![8, 11, 14]);
    let mut close = Week::empty();
    close.add_task(DaysOfTheWeek::Wednesday, Task { subject: c, span: span(15, 17), buildings: vec![] });
    assert!(w.overlaps(&close));
}

#[test]
fn different_days_never_overlap() {
    let a = commission(code("01.01"), "M", &[(DaysOfTheWeek::Monday, 8, 10)]);
    let b = commission(code("02.02"), "N", &[(DaysOfTheWeek::Friday, 8, 10)]);
    assert!(!a.schedule.overlaps(&b.schedule));
}

#[test]
fn parse_codes() {
    let c = code("61.03");
    assert_eq!(c, Code { department: 61, number: 3 });
    for bad in ["", "6103", "61-03", "6a.03", "61.0", "61.034", " 61.03"] {
        match Code::parse(bad) {
            Err(GeneratorError::Parse(t)) => assert_eq!(t, bad),
            _ => panic!("accepted {:?}", bad),
        }
    }
}

#[test]
fn unknown_mandatory_code_is_not_found() {
    let b = catalog().create_generator_builder();
    match b.set_mandatory_codes(vec!["01.01".to_string(), "09.09".to_string()]) {
        Err(GeneratorError::SubjectNotFound(c)) => assert_eq!(c, code("09.09")),
        _ => panic!("expected a missing subject"),
    }
}

#[test]
fn malformed_optional_code_is_a_parse_error() {
    let b = catalog().create_generator_builder();
    match b.set_optional_codes(vec!["02.02".to_string(), "x".to_string()]) {
        Err(GeneratorError::Parse(t)) => assert_eq!(t, "x"),
        _ => panic!("expected a parse error"),
    }
}

#[test]
fn unknown_commission_in_exception() {
    let r = builder().set_collision_exceptions(vec![(
        ("01.01".to_string(), "M1".to_string()),
        ("02.02".to_string(), "N9".to_string()),
    )]);
    match r {
        Err(GeneratorError::CommissionNotFound(c, n)) => {
            assert_eq!(c, code("02.02"));
            assert_eq!(n, "N9");
        }
        _ => panic!("expected a missing commission"),
    }
}

#[test]
fn unknown_subject_in_exception() {
    let r = builder().set_collision_exceptions(vec![(
        ("07.07".to_string(), "M1".to_string()),
        ("02.02".to_string(), "N1".to_string()),
    )]);
    assert!(matches!(r, Err(GeneratorError::SubjectNotFound(c)) if c == code("07.07")));
}

#[test]
fn code_in_both_lists_is_a_config_error() {
    let b = builder().set_optional_codes(vec!["01.01".to_string()]).ok().unwrap();
    assert!(matches!(b.build(), Err(GeneratorError::Config(c)) if c == code("01.01")));
}

#[test]
fn catalog_lookups() {
    let cat = catalog();
    assert_eq!(cat.position_of(code("02.02")), Some(1));
    assert_eq!(cat.position_of(code("08.08")), None);
    assert_eq!(cat.find_subject_by_code(code("01.01")).map(|s| s.credits), Some(3));
    assert!(cat.find_subject_by_code(code("08.08")).is_none());
    match cat.find_subjects_by_code(&vec![code("02.02"), code("01.01")]) {
        Ok(v) => assert_eq!(v, vec![1, 0]),
        Err(_) => panic!("both codes exist"),
    }
    let info = cat.get_subject_info(code("02.02")).unwrap();
    assert_eq!(info.code(), code("02.02"));
    assert_eq!(info.name(), "B");
    assert_eq!(info.credits, 4);
    assert!(cat.get_subject_info(code("08.08")).is_none());
}

#[test]
fn describe_merges_the_taken_weeks() {
    let g = generate(vec![subject_a()], vec![subject_b()], vec![]);
    let info = describe(&g, &vec![M1, N2]);
    assert_eq!(info.subjects.len(), 2);
    assert_eq!(info.subjects[0].code, code("01.01"));
    assert_eq!(info.subjects[0].name, "A");
    assert_eq!(info.subjects[0].credits, 3);
    assert_eq!(info.subjects[0].commissions, vec!["M1".to_string()]);
    assert_eq!(info.subjects[1].code, code("02.02"));
    assert_eq!(info.subjects[1].commissions, vec!["N2".to_string()]);
    assert_eq!(info.week.len(), 7);
    assert_eq!(info.week[0].len(), 1);
    assert_eq!(info.week[0][0].subject, code("01.01"));
    assert_eq!(info.week[0][0].span, span(8, 10));
    assert_eq!(info.week[0][0].buildings, vec!["Building M1".to_string()]);
    assert_eq!(info.week[1].len(), 1);
    assert_eq!(info.week[1][0].subject, code("02.02"));
    assert_eq!(info.week[1][0].span, span(9, 11));
    for d in 2..7 {
        assert!(info.week[d].is_empty());
    }
    let skipped = describe(&g, &vec![M2, SKIP]);
    assert_eq!(skipped.subjects.len(), 1);
    assert_eq!(skipped.week[0][0].span, span(10, 12));
    assert!(skipped.week[1].is_empty());
}

#[test]
fn combine_concatenates_days() {
    let a = commission(code("01.01"), "M", &[(DaysOfTheWeek::Monday, 8, 10), (DaysOfTheWeek::Sunday, 1, 2)]);
    let b = commission(code("02.02"), "N", &[(DaysOfTheWeek::Monday, 9, 11)]);
    let w = a.schedule.combine(&b.schedule);
    assert_eq!(w.days.len(), 7);
    assert_eq!(starts(&w, 0), vec![8, 9]);
    assert_eq!(starts(&w, 6), vec![1]);
    assert_eq!(w.days[0].tasks[1].subject, code("02.02"));
}

#[test]
fn weekday_positions() {
    assert_eq!(DaysOfTheWeek::Monday.position(), 0);
    assert_eq!(DaysOfTheWeek::Sunday.position(), 6);
    let mut d = Day { tasks: vec![] };
    d.sort_by_start();
    assert!(d.tasks.is_empty());
}

#[test]
fn timetables_follow_the_choices() {
    let mut g = builder().build().ok().unwrap();
    let first = g.next_timetable().unwrap();
    assert_eq!(first.subjects.len(), 2);
    assert_eq!(first.subjects[1].commissions, vec!["N2".to_string()]);
    assert_eq!(first.week[0][0].span, span(8, 10));
    assert_eq!(first.week[1][0].span, span(9, 11));
    let second = g.next_timetable().unwrap();
    assert_eq!(second.subjects.len(), 1);
    assert_eq!(second.subjects[0].commissions, vec!["M1".to_string()]);
    assert!(g.next_timetable().is_some());
    assert!(g.next_timetable().is_some());
    assert!(g.next_timetable().is_none());
}
