//! The schedule being gathered: for each specialty, for each class, for each group,
//! the list of class meetings.

use vstd::prelude::*;
use crate::strmap::StrMap;

verus! {

/// One meeting of a class, as read from a row of the timetable.
pub struct ClassInfo {
    pub name: String,
    pub time: String,
    pub weeks: String,
    pub auditorium: String,
    pub day_of_week: String,
}

/// The characters of each field of a [`ClassInfo`].
pub struct ClassInfoView {
    pub name: Seq<char>,
    pub time: Seq<char>,
    pub weeks: Seq<char>,
    pub auditorium: Seq<char>,
    pub day_of_week: Seq<char>,
}

impl View for ClassInfo {
    type V = ClassInfoView;

    open spec fn view(&self) -> ClassInfoView {
        ClassInfoView {
            name: self.name@,
            time: self.time@,
            weeks: self.weeks@,
            auditorium: self.auditorium@,
            day_of_week: self.day_of_week@,
        }
    }
}

impl DeepView for ClassInfo {
    type V = ClassInfoView;

    open spec fn deep_view(&self) -> ClassInfoView {
        self@
    }
}

impl ClassInfo {
    pub fn new(name: String, time: String, weeks: String, auditorium: String, day_of_week: String) -> (r: Self)
        ensures
            r.name == name,
            r.time == time,
            r.weeks == weeks,
            r.auditorium == auditorium,
            r.day_of_week == day_of_week,
    {
        Self { name, time, weeks, auditorium, day_of_week }
    }

    /// A copy with the same characters in every field.
    pub fn duplicate(&self) -> (r: Self)
        ensures
            r@ == self@,
    {
        ClassInfo {
            name: self.name.clone(),
            time: self.time.clone(),
            weeks: self.weeks.clone(),
            auditorium: self.auditorium.clone(),
            day_of_week: self.day_of_week.clone(),
        }
    }
}

/// Meetings of one class, by group.
pub type GroupsModel = Map<Seq<char>, Seq<ClassInfoView>>;

/// Classes of one specialty.
pub type ClassesModel = Map<Seq<char>, GroupsModel>;

/// The whole schedule, by specialty.
pub type ScheduleModel = Map<Seq<char>, ClassesModel>;

/// The meetings of one class, by group.
pub struct ClassSchedule {
    group_schedule: StrMap<Vec<ClassInfo>>,
}

impl DeepView for ClassSchedule {
    type V = GroupsModel;

    closed spec fn deep_view(&self) -> GroupsModel {
        self.group_schedule@
    }
}

impl ClassSchedule {
    pub fn new() -> (r: Self)
        ensures
            r.deep_view() == GroupsModel::empty(),
    {
        Self { group_schedule: StrMap::new() }
    }

    /// The meetings, by group.
    pub fn group_schedule(&self) -> (r: &StrMap<Vec<ClassInfo>>)
        ensures
            r@ == self.deep_view(),
    {
        &self.group_schedule
    }
}

/// The classes of one specialty.
pub struct SepecialtySchedule {
    classes: StrMap<ClassSchedule>,
}

impl DeepView for SepecialtySchedule {
    type V = ClassesModel;

    closed spec fn deep_view(&self) -> ClassesModel {
        self.classes@
    }
}

impl SepecialtySchedule {
    pub fn new() -> (r: Self)
        ensures
            r.deep_view() == ClassesModel::empty(),
    {
        Self { classes: StrMap::new() }
    }

    /// The classes, by name.
    pub fn classes(&self) -> (r: &StrMap<ClassSchedule>)
        ensures
            r@ == self.deep_view(),
    {
        &self.classes
    }
}

/// The schedule of every specialty.
pub struct Schedule {
    specialties: StrMap<SepecialtySchedule>,
}

impl View for Schedule {
    type V = ScheduleModel;

    closed spec fn view(&self) -> ScheduleModel {
        self.specialties@
    }
}

/// The value under `k`, or the empty map when there is none.
pub open spec fn map_or_empty<V>(m: Option<Map<Seq<char>, V>>) -> Map<Seq<char>, V> {
    match m {
        Some(v) => v,
        None => Map::empty(),
    }
}

/// The groups of a class after a meeting of `group` is added.
pub open spec fn groups_with_meeting(
    groups: Option<GroupsModel>,
    group: Seq<char>,
    info: ClassInfoView,
) -> GroupsModel {
    let g = map_or_empty(groups);
    let list = match g.get(group) {
        Some(l) => l,
        None => Seq::empty(),
    };
    g.insert(group, list.push(info))
}

/// The classes of a specialty after a meeting of `class` for `group` is added.
pub open spec fn classes_with_meeting(
    classes: Option<ClassesModel>,
    class: Seq<char>,
    group: Seq<char>,
    info: ClassInfoView,
) -> ClassesModel {
    let c = map_or_empty(classes);
    c.insert(class, groups_with_meeting(c.get(class), group, info))
}

/// The schedule after a meeting of `class` for `group` of `specialty` is added.
pub open spec fn schedule_with_meeting(
    m: ScheduleModel,
    specialty: Seq<char>,
    class: Seq<char>,
    group: Seq<char>,
    info: ClassInfoView,
) -> ScheduleModel {
    m.insert(specialty, classes_with_meeting(m.get(specialty), class, group, info))
}

/// The meetings listed for a group of a class of a specialty (none when absent).
pub open spec fn meetings(
    m: ScheduleModel,
    specialty: Seq<char>,
    class: Seq<char>,
    group: Seq<char>,
) -> Seq<ClassInfoView> {
    match m.get(specialty) {
        Some(c) => match c.get(class) {
            Some(g) => match g.get(group) {
                Some(l) => l,
                None => Seq::empty(),
            },
            None => Seq::empty(),
        },
        None => Seq::empty(),
    }
}

impl Schedule {
    pub fn new() -> (r: Self)
        ensures
            r@ == ScheduleModel::empty(),
    {
        Self { specialties: StrMap::new() }
    }

    /// The specialties, by name.
    pub fn specialties(&self) -> (r: &StrMap<SepecialtySchedule>)
        ensures
            r@ == self@,
    {
        &self.specialties
    }

    /// Adds a meeting of `class_name` for `group` to the schedule of `specialty_name`,
    /// creating the specialty, class and group entries that are missing.
    pub fn put_group_for_specialty(
        &mut self,
        specialty_name: &str,
        class_name: &str,
        group: &str,
        class_info: ClassInfo,
    )
        ensures
            final(self)@ == schedule_with_meeting(
                old(self)@,
                specialty_name@,
                class_name@,
                group@,
                class_info@,
            ),
    {
        let specialty_key = specialty_name.to_owned();
        let class_key = class_name.to_owned();
        let group_key = group.to_owned();
        let ghost m = self@;
        let mut specialty = match self.specialties.remove(&specialty_key) {
            Some(s) => s,
            None => SepecialtySchedule::new(),
        };
        assert(specialty.deep_view() == map_or_empty(m.get(specialty_name@)));
        let ghost c = specialty.deep_view();
        let mut class = match specialty.classes.remove(&class_key) {
            Some(s) => s,
            None => ClassSchedule::new(),
        };
        assert(class.deep_view() == map_or_empty(c.get(class_name@)));
        let ghost g = class.deep_view();
        let mut list = match class.group_schedule.remove(&group_key) {
            Some(l) => l,
            None => Vec::new(),
        };
        let ghost l0 = list.deep_view();
        assert(l0 == match g.get(group@) {
            Some(l) => l,
            None => Seq::<ClassInfoView>::empty(),
        });
        list.push(class_info);
        assert(list.deep_view() =~= l0.push(class_info@));
        class.group_schedule.insert(group_key, list);
        assert(class.deep_view() =~= groups_with_meeting(c.get(class_name@), group@, class_info@));
        specialty.classes.insert(class_key, class);
        assert(specialty.deep_view() =~= classes_with_meeting(
            m.get(specialty_name@),
            class_name@,
            group@,
            class_info@,
        ));
        self.specialties.insert(specialty_key, specialty);
        assert(self@ =~= schedule_with_meeting(m, specialty_name@, class_name@, group@, class_info@));
    }
}


/// Putting a meeting appends it to the list of exactly the specialty, class and group
/// it was put for.
pub proof fn law_put_appends_meeting(
    m: ScheduleModel,
    specialty: Seq<char>,
    class: Seq<char>,
    group: Seq<char>,
    info: ClassInfoView,
)
    ensures
        meetings(schedule_with_meeting(m, specialty, class, group, info), specialty, class, group)
            == meetings(m, specialty, class, group).push(info),
{
}

/// Putting a meeting leaves the list of every other specialty, class and group as it was.
pub proof fn law_put_leaves_other_lists(
    m: ScheduleModel,
    specialty: Seq<char>,
    class: Seq<char>,
    group: Seq<char>,
    info: ClassInfoView,
    other_specialty: Seq<char>,
    other_class: Seq<char>,
    other_group: Seq<char>,
)
    requires
        other_specialty != specialty || other_class != class || other_group != group,
    ensures
        meetings(
            schedule_with_meeting(m, specialty, class, group, info),
            other_specialty,
            other_class,
            other_group,
        ) == meetings(m, other_specialty, other_class, other_group),
{
}

/// Putting a meeting removes no specialty, class or group from the schedule.
pub proof fn law_put_keeps_entries(
    m: ScheduleModel,
    specialty: Seq<char>,
    class: Seq<char>,
    group: Seq<char>,
    info: ClassInfoView,
)
    ensures
        forall|s: Seq<char>| #[trigger] m.contains_key(s) ==> schedule_with_meeting(m, specialty, class, group, info).contains_key(s),
        forall|s: Seq<char>, c: Seq<char>| #[trigger] m.contains_key(s) && #[trigger] m[s].contains_key(c)
            ==> schedule_with_meeting(m, specialty, class, group, info)[s].contains_key(c),
{
}

/// Puts for different specialty, class and group paths can be made in either order.
pub proof fn law_put_commutes(
    m: ScheduleModel,
    s1: Seq<char>,
    c1: Seq<char>,
    g1: Seq<char>,
    i1: ClassInfoView,
    s2: Seq<char>,
    c2: Seq<char>,
    g2: Seq<char>,
    i2: ClassInfoView,
)
    requires
        s1 != s2 || c1 != c2 || g1 != g2,
    ensures
        schedule_with_meeting(schedule_with_meeting(m, s1, c1, g1, i1), s2, c2, g2, i2)
            == schedule_with_meeting(schedule_with_meeting(m, s2, c2, g2, i2), s1, c1, g1, i1),
{
    let a = schedule_with_meeting(m, s1, c1, g1, i1);
    let b = schedule_with_meeting(m, s2, c2, g2, i2);
    let lhs = schedule_with_meeting(a, s2, c2, g2, i2);
    let rhs = schedule_with_meeting(b, s1, c1, g1, i1);
    if s1 != s2 {
        assert(a.get(s2) == m.get(s2));
        assert(b.get(s1) == m.get(s1));
        assert(lhs =~= rhs);
    } else {
        let cm = map_or_empty(m.get(s1));
        let ca = map_or_empty(a.get(s1));
        let cb = map_or_empty(b.get(s1));
        assert(ca == cm.insert(c1, groups_with_meeting(cm.get(c1), g1, i1)));
        assert(cb == cm.insert(c2, groups_with_meeting(cm.get(c2), g2, i2)));
        if c1 != c2 {
            assert(ca.get(c2) == cm.get(c2));
            assert(cb.get(c1) == cm.get(c1));
            assert(classes_with_meeting(a.get(s1), c2, g2, i2) =~= classes_with_meeting(
                b.get(s1),
                c1,
                g1,
                i1,
            ));
        } else {
            let gm = map_or_empty(cm.get(c1));
            let ga = map_or_empty(ca.get(c1));
            let gb = map_or_empty(cb.get(c1));
            assert(ga == gm.insert(g1, match gm.get(g1) {
                Some(l) => l,
                None => Seq::<ClassInfoView>::empty(),
            }.push(i1)));
            assert(gb == gm.insert(g2, match gm.get(g2) {
                Some(l) => l,
                None => Seq::<ClassInfoView>::empty(),
            }.push(i2)));
            assert(ga.get(g2) == gm.get(g2));
            assert(gb.get(g1) == gm.get(g1));
            assert(groups_with_meeting(ca.get(c1), g2, i2) =~= groups_with_meeting(cb.get(c1), g1, i1));
            assert(classes_with_meeting(a.get(s1), c2, g2, i2) =~= classes_with_meeting(
                b.get(s1),
                c1,
                g1,
                i1,
            ));
        }
        assert(lhs =~= rhs);
    }
}

/// Two puts on the same path keep both meetings, in the order of the calls.
pub proof fn law_puts_on_one_path_keep_call_order(
    m: ScheduleModel,
    specialty: Seq<char>,
    class: Seq<char>,
    group: Seq<char>,
    first: ClassInfoView,
    second: ClassInfoView,
)
    ensures
        meetings(
            schedule_with_meeting(
                schedule_with_meeting(m, specialty, class, group, first),
                specialty,
                class,
                group,
                second,
            ),
            specialty,
            class,
            group,
        ) == meetings(m, specialty, class, group).push(first).push(second),
{
    law_put_appends_meeting(m, specialty, class, group, first);
    law_put_appends_meeting(
        schedule_with_meeting(m, specialty, class, group, first),
        specialty,
        class,
        group,
        second,
    );
}

/// Every meeting of a schedule, as its specialty, class, group and place in the list.
pub open spec fn meeting_slots(m: ScheduleModel) -> Set<(Seq<char>, Seq<char>, Seq<char>, int)> {
    Set::new(
        |t: (Seq<char>, Seq<char>, Seq<char>, int)| 0 <= t.3 < meetings(m, t.0, t.1, t.2).len(),
    )
}

/// No specialty without classes, no class without groups, no group without meetings.
pub open spec fn no_empty_entries(m: ScheduleModel) -> bool {
    &&& forall|s: Seq<char>| #[trigger] m.contains_key(s) ==> exists|c: Seq<char>| #[trigger] m[s].contains_key(c)
    &&& forall|s: Seq<char>, c: Seq<char>| #[trigger] m.contains_key(s) && #[trigger] m[s].contains_key(c)
        ==> exists|g: Seq<char>| #[trigger] m[s][c].contains_key(g)
    &&& forall|s: Seq<char>, c: Seq<char>, g: Seq<char>|
        m.contains_key(s) && m[s].contains_key(c) && #[trigger] m[s][c].contains_key(g) ==> m[s][c][g].len() > 0
}

/// One put: the specialty, class and group it is made for, and the meeting.
pub type Put = (Seq<char>, Seq<char>, Seq<char>, ClassInfoView);

/// The schedule that a fresh schedule becomes after the given puts, in order.
pub open spec fn built_by_puts(puts: Seq<Put>) -> ScheduleModel
    decreases puts.len(),
{
    if puts.len() == 0 {
        ScheduleModel::empty()
    } else {
        let p = puts.last();
        schedule_with_meeting(built_by_puts(puts.drop_last()), p.0, p.1, p.2, p.3)
    }
}

proof fn lemma_put_adds_one_slot(
    m: ScheduleModel,
    specialty: Seq<char>,
    class: Seq<char>,
    group: Seq<char>,
    info: ClassInfoView,
)
    ensures
        meeting_slots(schedule_with_meeting(m, specialty, class, group, info)) == meeting_slots(m).insert(
            (specialty, class, group, meetings(m, specialty, class, group).len() as int),
        ),
        !meeting_slots(m).contains((specialty, class, group, meetings(m, specialty, class, group).len() as int)),
{
    let n = schedule_with_meeting(m, specialty, class, group, info);
    let x = (specialty, class, group, meetings(m, specialty, class, group).len() as int);
    law_put_appends_meeting(m, specialty, class, group, info);
    assert forall|t: (Seq<char>, Seq<char>, Seq<char>, int)| meeting_slots(n).contains(t) <==> meeting_slots(
        m,
    ).insert(x).contains(t) by {
        if t.0 == specialty && t.1 == class && t.2 == group {
        } else {
            law_put_leaves_other_lists(m, specialty, class, group, info, t.0, t.1, t.2);
        }
    }
    assert(meeting_slots(n) =~= meeting_slots(m).insert(x));
}

proof fn lemma_put_keeps_no_empty_entries(
    m: ScheduleModel,
    specialty: Seq<char>,
    class: Seq<char>,
    group: Seq<char>,
    info: ClassInfoView,
)
    requires
        no_empty_entries(m),
    ensures
        no_empty_entries(schedule_with_meeting(m, specialty, class, group, info)),
{
    let n = schedule_with_meeting(m, specialty, class, group, info);
    assert forall|s: Seq<char>| #[trigger] n.contains_key(s) implies exists|c: Seq<char>| #[trigger] n[s].contains_key(c) by {
        if s == specialty {
            assert(n[s].contains_key(class));
        } else {
            assert(n[s] == m[s]);
            let c = choose|c: Seq<char>| #[trigger] m[s].contains_key(c);
            assert(n[s].contains_key(c));
        }
    }
    assert forall|s: Seq<char>, c: Seq<char>| #[trigger] n.contains_key(s) && #[trigger] n[s].contains_key(c)
        implies exists|g: Seq<char>| #[trigger] n[s][c].contains_key(g) by {
        if s == specialty && c == class {
            assert(n[s][c].contains_key(group));
        } else if s == specialty {
            assert(n[s][c] == m[s][c]);
            let g = choose|g: Seq<char>| #[trigger] m[s][c].contains_key(g);
            assert(n[s][c].contains_key(g));
        } else {
            assert(n[s] == m[s]);
            let g = choose|g: Seq<char>| #[trigger] m[s][c].contains_key(g);
            assert(n[s][c].contains_key(g));
        }
    }
    assert forall|s: Seq<char>, c: Seq<char>, g: Seq<char>|
        n.contains_key(s) && n[s].contains_key(c) && #[trigger] n[s][c].contains_key(g) implies n[s][c][g].len() > 0 by {
        if s == specialty && c == class && g == group {
        } else if s == specialty && c == class {
            assert(n[s][c][g] == m[s][c][g]);
        } else if s == specialty {
            assert(n[s][c] == m[s][c]);
        } else {
            assert(n[s] == m[s]);
        }
    }
}

/// A schedule built from an empty one by puts holds exactly one meeting per put, and
/// has no specialty, class or group left empty.
pub proof fn law_built_schedule_counts_puts(puts: Seq<Put>)
    ensures
        meeting_slots(built_by_puts(puts)).finite(),
        meeting_slots(built_by_puts(puts)).len() == puts.len(),
        no_empty_entries(built_by_puts(puts)),
    decreases puts.len(),
{
    if puts.len() == 0 {
        assert(meeting_slots(ScheduleModel::empty()) =~= Set::empty());
    } else {
        let p = puts.last();
        let before = built_by_puts(puts.drop_last());
        law_built_schedule_counts_puts(puts.drop_last());
        lemma_put_adds_one_slot(before, p.0, p.1, p.2, p.3);
        lemma_put_keeps_no_empty_entries(before, p.0, p.1, p.2, p.3);
    }
}
} // verus!
