use kma_parser::config::{ConfigParams, SpecialtyConfig};
use kma_parser::schedule::{ClassInfo, Schedule};
use kma_parser::table::{search_for_table, TableRow};
use kma_parser::text::ParseFailure;

fn info(name: &str, time: &str) -> ClassInfo {
    ClassInfo::new(name.to_string(), time.to_string(), "1-14".to_string(), "1-225".to_string(), "Понеділок".to_string())
}

fn meetings<'a>(s: &'a Schedule, specialty: &str, class: &str, group: &str) -> Option<&'a Vec<ClassInfo>> {
    s.specialties()
        .get(&specialty.to_string())?
        .classes()
        .get(&class.to_string())?
        .group_schedule()
        .get(&group.to_string())
}

fn row(day: &str, hour: &str, title: &str, groups: &str) -> TableRow {
    TableRow {
        day: day.to_string(),
        hour: hour.to_string(),
        class_title: title.to_string(),
        groups: groups.to_string(),
        weeks: "2-8".to_string(),
        auditorium: "3-301".to_string(),
    }
}

#[test]
fn put_group_appends_to_one_list() {
    let mut s = Schedule::new();
    s.put_group_for_specialty("Маркетинг", "Economics", "1", info("Economics", "8:30"));
    s.put_group_for_specialty("Маркетинг", "Economics", "1", info("Economics", "10:00"));
    s.put_group_for_specialty("Маркетинг", "Economics", "2", info("Economics", "11:40"));
    s.put_group_for_specialty("Фінанси", "Economics", "1", info("Economics", "13:30"));
    let list = meetings(&s, "Маркетинг", "Economics", "1").unwrap();
    assert_eq!(list.len(), 2);
    assert_eq!(list[0].time, "8:30");
    assert_eq!(list[1].time, "10:00");
    assert_eq!(meetings(&s, "Маркетинг", "Economics", "2").unwrap().len(), 1);
    assert_eq!(meetings(&s, "Фінанси", "Economics", "1").unwrap()[0].time, "13:30");
    assert!(meetings(&s, "Фінанси", "Economics", "2").is_none());
    assert_eq!(s.specialties().len(), 2);
}

#[test]
fn duplicate_copies_every_field() {
    let a = info("Law", "8:30");
    let b = a.duplicate();
    assert_eq!(b.name, "Law");
    assert_eq!(b.time, "8:30");
    assert_eq!(b.weeks, "1-14");
    assert_eq!(b.auditorium, "1-225");
    assert_eq!(b.day_of_week, "Понеділок");
}

#[test]
fn search_for_table_gathers_rows() {
    let config = ConfigParams {
        default_specialty: "Default".to_string(),
        specialties_configs: vec![
            SpecialtyConfig { aliases: vec![], name: "Default".to_string() },
            SpecialtyConfig { aliases: vec![], name: "Маркетинг".to_string() },
            SpecialtyConfig { aliases: vec![], name: "Фінанси".to_string() },
        ],
    };
    let rows = vec![
        row("Понеділок", "8:30-9:50", "Economics (марк.+фін.) доц. X", "1"),
        row("", "", "", ""),
        row("", "10:00-11:20", "History", "Лекція"),
        row("Вівторок", "", "Economics (марк.) доц. X", "2"),
    ];
    let mut s = Schedule::new();
    assert_eq!(search_for_table(&rows, &config, &mut s), Ok(()));
    let m1 = meetings(&s, "Маркетинг", "Economics доц. X", "1").unwrap();
    assert_eq!(m1.len(), 1);
    assert_eq!(m1[0].name, "Economics (марк.+фін.) доц. X");
    assert_eq!(m1[0].time, "8:30-9:50");
    assert_eq!(m1[0].day_of_week, "Понеділок");
    assert_eq!(m1[0].weeks, "2-8");
    assert_eq!(m1[0].auditorium, "3-301");
    assert_eq!(meetings(&s, "Фінанси", "Economics доц. X", "1").unwrap().len(), 1);
    let h = meetings(&s, "Default", "History", "Лекція").unwrap();
    assert_eq!(h[0].time, "10:00-11:20");
    assert_eq!(h[0].day_of_week, "Понеділок");
    let m2 = meetings(&s, "Маркетинг", "Economics доц. X", "2").unwrap();
    assert_eq!(m2[0].day_of_week, "Вівторок");
    assert_eq!(m2[0].time, "10:00-11:20");
}

#[test]
fn search_for_table_stops_at_failure() {
    let config = ConfigParams {
        default_specialty: "Default".to_string(),
        specialties_configs: vec![SpecialtyConfig { aliases: vec![], name: "Default".to_string() }],
    };
    let rows = vec![
        row("Понеділок", "8:30", "History", "1"),
        row("", "", "Law", "group"),
        row("", "", "Physics", "2"),
    ];
    let mut s = Schedule::new();
    assert_eq!(
        search_for_table(&rows, &config, &mut s),
        Err(ParseFailure { input: "group".to_string() })
    );
    assert_eq!(meetings(&s, "Default", "History", "1").unwrap().len(), 1);
    assert!(meetings(&s, "Default", "Physics", "2").is_none());
}

#[test]
fn search_for_table_checked_refuses_unknown_default() {
    let config = ConfigParams {
        default_specialty: "Error".to_string(),
        specialties_configs: vec![SpecialtyConfig { aliases: vec![], name: "Маркетинг".to_string() }],
    };
    let rows = vec![
        row("Понеділок", "8:30", "Economics (марк.)", "1"),
        row("", "", "History", "2"),
        row("", "", "Law (марк.)", "x"),
    ];
    let mut s = Schedule::new();
    assert_eq!(kma_parser::table::search_for_table_checked(&rows, &config, &mut s), None);
    assert_eq!(meetings(&s, "Маркетинг", "Economics ", "1").unwrap().len(), 1);

    let ok_rows = vec![row("Вівторок", "10:00", "Economics (марк.)", "1")];
    let mut s2 = Schedule::new();
    assert_eq!(
        kma_parser::table::search_for_table_checked(&ok_rows, &config, &mut s2),
        Some(Ok(()))
    );
    let failing = vec![row("Вівторок", "10:00", "Law (марк.)", "x")];
    let mut s3 = Schedule::new();
    assert_eq!(
        kma_parser::table::search_for_table_checked(&failing, &config, &mut s3),
        Some(Err(ParseFailure { input: "x".to_string() }))
    );
}

fn total(s: &Schedule) -> usize {
    let mut n = 0;
    let sp = s.specialties();
    for i in 0..sp.len() {
        let classes = sp.entry(i).1.classes();
        assert!(classes.len() > 0);
        for j in 0..classes.len() {
            let groups = classes.entry(j).1.group_schedule();
            assert!(groups.len() > 0);
            for k in 0..groups.len() {
                let list = groups.entry(k).1;
                assert!(!list.is_empty());
                n += list.len();
            }
        }
    }
    n
}

#[test]
fn puts_are_counted_and_commute() {
    let puts = [
        ("A", "X", "1", "8:30"),
        ("A", "X", "2", "10:00"),
        ("B", "X", "1", "11:40"),
        ("A", "Y", "1", "13:30"),
        ("A", "X", "1", "15:00"),
    ];
    let mut forward = Schedule::new();
    for (s, c, g, t) in puts {
        forward.put_group_for_specialty(s, c, g, info(c, t));
    }
    assert_eq!(total(&forward), 5);

    let mut backward = Schedule::new();
    for (s, c, g, t) in puts.iter().rev() {
        backward.put_group_for_specialty(s, c, g, info(c, t));
    }
    // different paths: the same meetings wherever the order differs
    for (s, c, g) in [("A", "X", "2"), ("B", "X", "1"), ("A", "Y", "1")] {
        assert_eq!(
            meetings(&forward, s, c, g).unwrap()[0].time,
            meetings(&backward, s, c, g).unwrap()[0].time
        );
    }
    // the same path keeps the order of the calls
    let a = meetings(&forward, "A", "X", "1").unwrap();
    assert_eq!((a[0].time.as_str(), a[1].time.as_str()), ("8:30", "15:00"));
    let b = meetings(&backward, "A", "X", "1").unwrap();
    assert_eq!((b[0].time.as_str(), b[1].time.as_str()), ("15:00", "8:30"));
}
