//! Gathering the rows of a timetable sheet into a schedule.

use vstd::prelude::*;
use crate::config::{identify_defined, law_identified_specialties_are_configured, ConfigParams, CourseChecker};
use crate::schedule::{
    meetings,
    classes_with_meeting, schedule_with_meeting, ClassInfo, ClassInfoView, Schedule,
    ScheduleModel,
};
use crate::text::ParseFailure;

verus! {

/// One row of the timetable sheet: day, hour, class title, groups, weeks, auditorium.
pub struct TableRow {
    pub day: String,
    pub hour: String,
    pub class_title: String,
    pub groups: String,
    pub weeks: String,
    pub auditorium: String,
}

/// The characters of a [`TableRow`].
pub struct RowView {
    pub day: Seq<char>,
    pub hour: Seq<char>,
    pub class_title: Seq<char>,
    pub groups: Seq<char>,
    pub weeks: Seq<char>,
    pub auditorium: Seq<char>,
}

impl View for TableRow {
    type V = RowView;

    open spec fn view(&self) -> RowView {
        RowView {
            day: self.day@,
            hour: self.hour@,
            class_title: self.class_title@,
            groups: self.groups@,
            weeks: self.weeks@,
            auditorium: self.auditorium@,
        }
    }
}

/// The characters of each row.
pub open spec fn rows_view(rows: Seq<TableRow>) -> Seq<RowView> {
    rows.map_values(|r: TableRow| r@)
}

/// How gathering a table ends: with the schedule built, with a parse failure (and the
/// schedule as it stood), or aborted.
pub enum TableOutcome {
    Completed(ScheduleModel),
    Failed(Seq<char>, ScheduleModel),
    Aborted,
}

/// How handling one row ends: with the day, hour and schedule for the next row, with a
/// parse failure (and the schedule as it stood), or aborted.
pub enum RowOutcome {
    Next(Seq<char>, Seq<char>, ScheduleModel),
    Failed(Seq<char>, ScheduleModel),
    Aborted,
}

/// The schedule with a meeting of `class` added for each specialty in `groups`, under
/// the group it maps to.
pub open spec fn meetings_added(
    m: ScheduleModel,
    groups: Map<Seq<char>, Seq<char>>,
    class: Seq<char>,
    info: ClassInfoView,
) -> ScheduleModel {
    Map::new(
        |k: Seq<char>| m.contains_key(k) || groups.contains_key(k),
        |k: Seq<char>|
            if groups.contains_key(k) {
                classes_with_meeting(m.get(k), class, groups[k], info)
            } else {
                m[k]
            },
    )
}

/// The meeting a row describes, under the day and hour in force for it.
pub open spec fn row_meeting(row: RowView, day: Seq<char>, hour: Seq<char>) -> ClassInfoView {
    ClassInfoView {
        name: row.class_title,
        time: hour,
        weeks: row.weeks,
        auditorium: row.auditorium,
        day_of_week: day,
    }
}

/// Handling one row with `day` and `hour` in force from the rows before. The row's day
/// and hour, when not empty, come into force; a row without a class title adds nothing;
/// any other row adds a meeting for each of its specialties, under the normalised title
/// and the group the specialty maps to. It aborts where the specialties cannot be
/// identified or come out empty.
pub open spec fn row_step<C: CourseChecker>(
    checker: C,
    row: RowView,
    day: Seq<char>,
    hour: Seq<char>,
    m: ScheduleModel,
) -> RowOutcome {
    let day2 = if row.day.len() > 0 {
        row.day
    } else {
        day
    };
    let hour2 = if row.hour.len() > 0 {
        row.hour
    } else {
        hour
    };
    if row.class_title.len() == 0 {
        RowOutcome::Next(day2, hour2, m)
    } else if !checker.identify_allowed(row.class_title) {
        RowOutcome::Aborted
    } else {
        match checker.identify_spec(row.class_title) {
            Err(e) => RowOutcome::Failed(e, m),
            Ok(specialties) => if specialties.len() == 0 {
                RowOutcome::Aborted
            } else {
                match checker.groups_spec(specialties, row.groups) {
                    Err(e) => RowOutcome::Failed(e, m),
                    Ok(groups) => match checker.normalize_spec(row.class_title) {
                        Err(e) => RowOutcome::Failed(e, m),
                        Ok(title) => RowOutcome::Next(
                            day2,
                            hour2,
                            meetings_added(m, groups, title, row_meeting(row, day2, hour2)),
                        ),
                    },
                }
            },
        }
    }
}

/// Gathering `rows` into schedule `m`, with `day` and `hour` in force from the rows
/// before: the rows are handled in order until one fails or aborts.
pub open spec fn table_run<C: CourseChecker>(
    checker: C,
    rows: Seq<RowView>,
    day: Seq<char>,
    hour: Seq<char>,
    m: ScheduleModel,
) -> TableOutcome
    decreases rows.len(),
{
    if rows.len() == 0 {
        TableOutcome::Completed(m)
    } else {
        match row_step(checker, rows[0], day, hour, m) {
            RowOutcome::Next(d, h, m2) => table_run(checker, rows.drop_first(), d, h, m2),
            RowOutcome::Failed(e, m2) => TableOutcome::Failed(e, m2),
            RowOutcome::Aborted => TableOutcome::Aborted,
        }
    }
}

proof fn lemma_meetings_added_empty(m: ScheduleModel, class: Seq<char>, info: ClassInfoView)
    ensures
        meetings_added(m, Map::empty(), class, info) == m,
{
    assert(meetings_added(m, Map::empty(), class, info) =~= m);
}

proof fn lemma_meetings_added_step(
    m: ScheduleModel,
    p: Map<Seq<char>, Seq<char>>,
    k: Seq<char>,
    v: Seq<char>,
    class: Seq<char>,
    info: ClassInfoView,
)
    requires
        !p.contains_key(k),
    ensures
        schedule_with_meeting(meetings_added(m, p, class, info), k, class, v, info)
            == meetings_added(m, p.insert(k, v), class, info),
{
    let before = meetings_added(m, p, class, info);
    assert(before.get(k) == m.get(k));
    assert(schedule_with_meeting(before, k, class, v, info) =~= meetings_added(
        m,
        p.insert(k, v),
        class,
        info,
    ));
}

/// Handles one row of the timetable: brings its day and hour into force, and adds a
/// meeting for each specialty of its class title (none when the title is empty).
pub fn process_row<C: CourseChecker>(
    row: &TableRow,
    course_checker: &C,
    schedule: &mut Schedule,
    current_day: &mut String,
    current_hour: &mut String,
) -> (r: Result<(), ParseFailure>)
    requires
        !(row_step(*course_checker, row@, old(current_day)@, old(current_hour)@, old(schedule)@) is Aborted),
    ensures
        match row_step(*course_checker, row@, old(current_day)@, old(current_hour)@, old(schedule)@) {
            RowOutcome::Next(d, h, m) => r is Ok && final(current_day)@ == d && final(current_hour)@ == h
                && final(schedule)@ == m,
            RowOutcome::Failed(e, m) => r matches Err(x) && x.input@ == e && final(schedule)@ == m,
            RowOutcome::Aborted => false,
        },
{
    if !row.day.as_str().is_empty() {
        *current_day = row.day.clone();
    }
    if !row.hour.as_str().is_empty() {
        *current_hour = row.hour.clone();
    }
    if row.class_title.as_str().is_empty() {
        return Ok(());
    }
    let specialties = match course_checker.identify_sepecialties(row.class_title.as_str()) {
        Ok(s) => s,
        Err(e) => return Err(e),
    };
    let groups = match course_checker.parse_groups(&specialties, row.groups.as_str()) {
        Ok(g) => g,
        Err(e) => return Err(e),
    };
    let class_info = ClassInfo::new(
        row.class_title.clone(),
        current_hour.clone(),
        row.weeks.clone(),
        row.auditorium.clone(),
        current_day.clone(),
    );
    let normalized_class_title = match course_checker.normalize_title(row.class_title.as_str()) {
        Ok(t) => t,
        Err(e) => return Err(e),
    };
    let ghost m0 = schedule@;
    let ghost info = class_info@;
    let count = groups.len();
    let mut j: usize = 0;
    proof {
        use_type_invariant(&groups);
        groups.lemma_prefix_zero();
        lemma_meetings_added_empty(m0, normalized_class_title@, info);
    }
    while j < count
        invariant
            count == groups.count(),
            groups.well_formed(),
            j <= count,
            class_info@ == info,
            schedule@ == meetings_added(m0, groups.prefix_view(j as int), normalized_class_title@, info),
        decreases count - j,
    {
        let (key, value) = groups.entry(j);
        proof {
            groups.lemma_prefix(j as int);
            lemma_meetings_added_step(
                m0,
                groups.prefix_view(j as int),
                key@,
                value@,
                normalized_class_title@,
                info,
            );
        }
        schedule.put_group_for_specialty(
            key.as_str(),
            normalized_class_title.as_str(),
            value.as_str(),
            class_info.duplicate(),
        );
        j = j + 1;
    }
    proof {
        if count > 0 {
            groups.lemma_prefix((count - 1) as int);
        } else {
            groups.lemma_prefix_zero();
        }
    }
    Ok(())
}

/// Gathers the rows of a timetable into `schedule`: the day and hour carry over from
/// the rows above when a row leaves them empty, rows without a class title are passed
/// over, and for every other row each identified specialty gets a meeting of the
/// normalised class under its group. Stops at the first parse failure.
pub fn search_for_table<C: CourseChecker>(
    rows: &Vec<TableRow>,
    course_checker: &C,
    schedule: &mut Schedule,
) -> (r: Result<(), ParseFailure>)
    requires
        !(table_run(
            *course_checker,
            rows_view(rows@),
            Seq::empty(),
            Seq::empty(),
            old(schedule)@,
        ) is Aborted),
    ensures
        match table_run(*course_checker, rows_view(rows@), Seq::empty(), Seq::empty(), old(schedule)@) {
            TableOutcome::Completed(m) => r is Ok && final(schedule)@ == m,
            TableOutcome::Failed(e, m) => r matches Err(x) && x.input@ == e && final(schedule)@ == m,
            TableOutcome::Aborted => false,
        },
{
    let ghost all = rows_view(rows@);
    let ghost outcome = table_run(*course_checker, all, Seq::empty(), Seq::empty(), old(schedule)@);
    let mut current_day = String::new();
    let mut current_hour = String::new();
    let n = rows.len();
    let mut i: usize = 0;
    assert(all.skip(0) =~= all);
    while i < n
        invariant
            n == rows@.len() == all.len(),
            all == rows_view(rows@),
            i <= n,
            !(outcome is Aborted),
            outcome == table_run(
                *course_checker,
                rows_view(rows@),
                Seq::empty(),
                Seq::empty(),
                old(schedule)@,
            ),
            outcome == table_run(*course_checker, all.skip(i as int), current_day@, current_hour@, schedule@),
        decreases n - i,
    {
        let ghost rest = all.skip(i as int);
        assert(rest[0] == rows@[i as int]@);
        assert(rest.drop_first() =~= all.skip(i + 1));
        match process_row(&rows[i], course_checker, schedule, &mut current_day, &mut current_hour) {
            Ok(()) => {},
            Err(e) => return Err(e),
        }
        i = i + 1;
    }
    assert(all.skip(n as int) =~= Seq::<RowView>::empty());
    Ok(())
}

/// Gathers the rows like [`search_for_table`], but answers `None` where that would
/// abort: at the first row reached whose specialties cannot be identified (the title
/// names none and the default specialty is not a configured one). The schedule then
/// holds the rows before it.
pub fn search_for_table_checked(
    rows: &Vec<TableRow>,
    config: &ConfigParams,
    schedule: &mut Schedule,
) -> (r: Option<Result<(), ParseFailure>>)
    ensures
        match table_run(*config, rows_view(rows@), Seq::empty(), Seq::empty(), old(schedule)@) {
            TableOutcome::Completed(m) => r == Some(Ok::<(), ParseFailure>(())) && final(schedule)@ == m,
            TableOutcome::Failed(e, m) => r matches Some(Err(x)) && x.input@ == e && final(schedule)@ == m,
            TableOutcome::Aborted => r is None,
        },
{
    let ghost all = rows_view(rows@);
    let ghost outcome = table_run(*config, all, Seq::empty(), Seq::empty(), old(schedule)@);
    let mut current_day = String::new();
    let mut current_hour = String::new();
    let n = rows.len();
    let mut i: usize = 0;
    assert(all.skip(0) =~= all);
    while i < n
        invariant
            n == rows@.len() == all.len(),
            all == rows_view(rows@),
            i <= n,
            outcome == table_run(*config, rows_view(rows@), Seq::empty(), Seq::empty(), old(schedule)@),
            outcome == table_run(*config, all.skip(i as int), current_day@, current_hour@, schedule@),
        decreases n - i,
    {
        let row = &rows[i];
        let ghost rest = all.skip(i as int);
        assert(rest[0] == row@);
        assert(rest.drop_first() =~= all.skip(i + 1));
        proof {
            if identify_defined(config@, row@.class_title) {
                law_identified_specialties_are_configured(config@, row@.class_title);
            }
        }
        if !row.class_title.as_str().is_empty() && !config.identify_is_defined(row.class_title.as_str()) {
            return None;
        }
        match process_row(row, config, schedule, &mut current_day, &mut current_hour) {
            Ok(()) => {},
            Err(e) => return Some(Err(e)),
        }
        i = i + 1;
    }
    assert(all.skip(n as int) =~= Seq::<RowView>::empty());
    Some(Ok(()))
}

/// The day and hour in force after a row are the row's own, where it gives them, and
/// otherwise those in force before it, whatever the row's class title.
pub proof fn law_rows_carry_day_and_hour<C: CourseChecker>(
    checker: C,
    row: RowView,
    day: Seq<char>,
    hour: Seq<char>,
    m: ScheduleModel,
)
    ensures
        row_step(checker, row, day, hour, m) matches RowOutcome::Next(d, h, _) ==> {
            &&& d == (if row.day.len() > 0 { row.day } else { day })
            &&& h == (if row.hour.len() > 0 { row.hour } else { hour })
        },
{
}

/// A row without a class title adds nothing to the schedule, but still brings its day
/// and hour, where it gives them, into force.
pub proof fn law_untitled_row_only_moves_day_and_hour<C: CourseChecker>(
    checker: C,
    row: RowView,
    day: Seq<char>,
    hour: Seq<char>,
    m: ScheduleModel,
)
    requires
        row.class_title.len() == 0,
    ensures
        row_step(checker, row, day, hour, m) == RowOutcome::Next(
            if row.day.len() > 0 {
                row.day
            } else {
                day
            },
            if row.hour.len() > 0 {
                row.hour
            } else {
                hour
            },
            m,
        ),
{
}

/// Two rows with the same day and hour cells leave the same day and hour in force,
/// whether or not they have a class title.
pub proof fn law_carried_day_and_hour_ignore_title<C: CourseChecker>(
    checker: C,
    first: RowView,
    second: RowView,
    day: Seq<char>,
    hour: Seq<char>,
    m1: ScheduleModel,
    m2: ScheduleModel,
)
    requires
        first.day == second.day,
        first.hour == second.hour,
    ensures
        row_step(checker, first, day, hour, m1) matches RowOutcome::Next(d1, h1, _) ==> (row_step(
            checker,
            second,
            day,
            hour,
            m2,
        ) matches RowOutcome::Next(d2, h2, _) ==> d1 == d2 && h1 == h2),
{
    law_rows_carry_day_and_hour(checker, first, day, hour, m1);
    law_rows_carry_day_and_hour(checker, second, day, hour, m2);
}

/// A titled row that goes through adds, for every specialty it names, one meeting at the
/// end of the list of the specialty's group under the normalised title; the meeting has
/// the row's title, weeks and auditorium and the day and hour in force after the row.
/// Specialties it does not name keep their schedules.
pub proof fn law_titled_row_adds_its_meeting<C: CourseChecker>(
    checker: C,
    row: RowView,
    day: Seq<char>,
    hour: Seq<char>,
    m: ScheduleModel,
)
    requires
        row.class_title.len() > 0,
    ensures
        row_step(checker, row, day, hour, m) matches RowOutcome::Next(d, h, m2) ==> {
            &&& checker.identify_spec(row.class_title) matches Ok(specialties)
            &&& checker.groups_spec(specialties, row.groups) matches Ok(groups)
            &&& checker.normalize_spec(row.class_title) matches Ok(title)
            &&& forall|k: Seq<char>| #[trigger] groups.contains_key(k) ==> meetings(m2, k, title, groups[k])
                == meetings(m, k, title, groups[k]).push(
                ClassInfoView {
                    name: row.class_title,
                    time: h,
                    weeks: row.weeks,
                    auditorium: row.auditorium,
                    day_of_week: d,
                },
            )
            &&& forall|k: Seq<char>| !groups.contains_key(k) ==> #[trigger] m2.get(k) == m.get(k)
        },
{
    if let RowOutcome::Next(d, h, m2) = row_step(checker, row, day, hour, m) {
        let specialties = checker.identify_spec(row.class_title)->Ok_0;
        let groups = checker.groups_spec(specialties, row.groups)->Ok_0;
        let title = checker.normalize_spec(row.class_title)->Ok_0;
        let info = row_meeting(row, d, h);
        assert forall|k: Seq<char>| #[trigger] groups.contains_key(k) implies meetings(m2, k, title, groups[k])
            == meetings(m, k, title, groups[k]).push(info) by {
            assert(m2[k] == classes_with_meeting(m.get(k), title, groups[k], info));
            assert(m2.get(k) == Some(m2[k]));
        }
        assert forall|k: Seq<char>| !groups.contains_key(k) implies #[trigger] m2.get(k) == m.get(k) by {
            if m.contains_key(k) {
                assert(m2.contains_key(k));
            }
        }
    }
}

} // verus!
