use booking_db::conflict::{check_move, conflicts, first_overlap, Interval, StoredTimeSlot};
use booking_db::error::{CreateGroupError, CreateTeamError, TimeSlotError};
use booking_db::input::{
    Config, CreateFieldInput, CreateRegionInput, CreateTeamInput, FieldValidationError,
    RegionValidationError, TeamValidationError,
};
use booking_db::instant::Instant;
use booking_db::schedule::{schedule_messages, scheduler_endpoint, FieldRequest, ScheduleInput, SlotRequest};
use booking_db::store::{
    Client, CreateTimeSlotInput, ListReservationsBetweenInput, MoveTimeSlotInput, TeamGroup,
};
use booking_db::tags::{eq_ignore_ascii_case, group_decrements, is_duplicate_tag, missing_tags};

fn at(secs: i64) -> Instant {
    Instant::new(secs, 0)
}

fn store_with_field() -> (Client, i32, i32) {
    let mut c = Client::new();
    let region = c.create_region(CreateRegionInput::new("North".to_string())).unwrap();
    let field = c.create_field(CreateFieldInput::new("Pitch 1".to_string(), region.id)).unwrap();
    (c, region.id, field.id)
}

fn book(c: &mut Client, field_id: i32, start: i64, end: i64) -> Result<booking_db::store::TimeSlot, TimeSlotError> {
    c.create_time_slot(CreateTimeSlotInput { field_id, start: at(start), end: at(end) })
}

fn usages_of(c: &Client, name: &str) -> i32 {
    c.get_groups().into_iter().find(|g: &TeamGroup| g.name == name).unwrap().usages
}

fn team(name: &str, region_id: i32, tags: &[&str]) -> CreateTeamInput {
    CreateTeamInput::new(name.to_string(), region_id, tags.iter().map(|t| t.to_string()).collect())
}

#[test]
fn overlapping_booking_is_refused() {
    let (mut c, _, f) = store_with_field();
    book(&mut c, f, 10, 20).unwrap();
    let r = book(&mut c, f, 15, 25);
    assert_eq!(r, Err(TimeSlotError::Overlap { o_start: at(10), o_end: at(20) }));
    assert_eq!(c.get_time_slots(f).len(), 1);
}

#[test]
fn touching_intervals_do_not_overlap() {
    let (mut c, _, f) = store_with_field();
    book(&mut c, f, 10, 20).unwrap();
    assert!(book(&mut c, f, 20, 30).is_ok());
    assert!(book(&mut c, f, 0, 10).is_ok());
    assert_eq!(c.get_time_slots(f).len(), 3);
}

#[test]
fn other_fields_do_not_conflict() {
    let (mut c, region, f) = store_with_field();
    let g = c.create_field(CreateFieldInput::new("Pitch 2".to_string(), region)).unwrap();
    book(&mut c, f, 10, 20).unwrap();
    assert!(book(&mut c, g.id, 10, 20).is_ok());
}

#[test]
fn first_conflict_in_storage_order_is_reported() {
    let (mut c, _, f) = store_with_field();
    book(&mut c, f, 30, 40).unwrap();
    book(&mut c, f, 10, 20).unwrap();
    let r = book(&mut c, f, 0, 100);
    assert_eq!(r, Err(TimeSlotError::Overlap { o_start: at(30), o_end: at(40) }));
}

#[test]
fn move_onto_own_interval_succeeds() {
    let (mut c, _, f) = store_with_field();
    let s = book(&mut c, f, 10, 20).unwrap();
    let r = c.move_time_slot(MoveTimeSlotInput { field_id: f, id: s.id, new_start: at(10), new_end: at(20) });
    assert_eq!(r, Ok(()));
    assert_eq!(c.get_time_slots(f)[0].start, at(10));
}

#[test]
fn move_into_another_slot_is_refused() {
    let (mut c, _, f) = store_with_field();
    let s = book(&mut c, f, 10, 20).unwrap();
    book(&mut c, f, 30, 40).unwrap();
    let r = c.move_time_slot(MoveTimeSlotInput { field_id: f, id: s.id, new_start: at(25), new_end: at(35) });
    assert_eq!(r, Err(TimeSlotError::Overlap { o_start: at(30), o_end: at(40) }));
    assert_eq!(c.get_time_slots(f)[0].start, at(10));
    let ok = c.move_time_slot(MoveTimeSlotInput { field_id: f, id: s.id, new_start: at(15), new_end: at(30) });
    assert_eq!(ok, Ok(()));
    assert_eq!(c.get_time_slots(f)[0].end, at(30));
}

#[test]
fn move_of_unknown_slot_is_not_found() {
    let (mut c, _, f) = store_with_field();
    let s = book(&mut c, f, 10, 20).unwrap();
    let r = c.move_time_slot(MoveTimeSlotInput { field_id: f, id: s.id + 100, new_start: at(0), new_end: at(5) });
    assert_eq!(r, Err(TimeSlotError::NotFound));
    let wrong_field = c.move_time_slot(MoveTimeSlotInput { field_id: f + 100, id: s.id, new_start: at(0), new_end: at(5) });
    assert_eq!(wrong_field, Err(TimeSlotError::NotFound));
}

#[test]
fn deleted_slot_frees_its_interval() {
    let (mut c, _, f) = store_with_field();
    let s = book(&mut c, f, 10, 20).unwrap();
    c.delete_time_slot(s.id);
    assert!(c.get_time_slots(f).is_empty());
    assert!(book(&mut c, f, 15, 25).is_ok());
}

#[test]
fn reservations_between_include_both_ends() {
    let (mut c, _, f) = store_with_field();
    book(&mut c, f, 10, 20).unwrap();
    book(&mut c, f, 20, 30).unwrap();
    book(&mut c, f, 40, 50).unwrap();
    let r = c.list_reservations_between(ListReservationsBetweenInput { start: at(10), end: at(20) });
    assert_eq!(r.len(), 2);
    assert_eq!(r[1].start, at(20));
}

#[test]
fn missing_tags_roll_back_the_counts() {
    let (mut c, region, _) = store_with_field();
    c.create_group("A".to_string()).unwrap();
    c.create_group("B".to_string()).unwrap();
    let r = c.create_team(team("Falcons", region, &["A", "B", "C"]));
    assert_eq!(r, Err(CreateTeamError::MissingTags(vec!["C".to_string()])));
    assert_eq!(usages_of(&c, "A"), 0);
    assert_eq!(usages_of(&c, "B"), 0);
    assert!(c.load_all_teams().is_empty());
}

#[test]
fn usage_count_round_trips() {
    let (mut c, region, _) = store_with_field();
    c.create_group("A".to_string()).unwrap();
    for name in ["One", "Two", "Three"] {
        c.create_team(team(name, region, &["A"])).unwrap();
    }
    assert_eq!(usages_of(&c, "A"), 3);
    let t = c.create_team(team("Four", region, &["A"])).unwrap();
    assert_eq!(usages_of(&c, "A"), 4);
    assert_eq!(t.tags.len(), 1);
    assert_eq!(t.tags[0].usages, 4);
    c.delete_team(t.team.id);
    assert_eq!(usages_of(&c, "A"), 3);
    assert_eq!(c.load_all_teams().len(), 3);
}

#[test]
fn team_without_tags_has_no_groups() {
    let (mut c, region, _) = store_with_field();
    let t = c.create_team(team("Solo", region, &[])).unwrap();
    assert!(t.tags.is_empty());
    assert_eq!(t.team.name, "Solo");
    assert_eq!(t.team.region_owner, region);
}

#[test]
fn team_name_is_validated() {
    let (mut c, region, _) = store_with_field();
    let r = c.create_team(team("", region, &[]));
    assert_eq!(r, Err(CreateTeamError::ValidationError(TeamValidationError::EmptyName)));
    let long = "x".repeat(65);
    let r = c.create_team(team(&long, region, &[]));
    assert_eq!(r, Err(CreateTeamError::ValidationError(TeamValidationError::NameTooLong { len: 65 })));
}

#[test]
fn region_deletion_cascades_counts() {
    let (mut c, region, _) = store_with_field();
    let other = c.create_region(CreateRegionInput::new("South".to_string())).unwrap();
    c.create_group("X".to_string()).unwrap();
    c.create_team(team("T1", region, &["X"])).unwrap();
    c.create_team(team("T2", region, &["X"])).unwrap();
    c.create_team(team("T3", other.id, &["X"])).unwrap();
    assert_eq!(usages_of(&c, "X"), 3);
    c.delete_region(region);
    assert_eq!(usages_of(&c, "X"), 1);
    assert!(c.load_region(region).is_empty());
    assert_eq!(c.load_region(other.id).len(), 1);
    assert!(c.get_teams(region).is_none());
}

#[test]
fn teams_with_tags_of_a_region() {
    let (mut c, region, _) = store_with_field();
    c.create_group("X".to_string()).unwrap();
    c.create_group("Y".to_string()).unwrap();
    c.create_team(team("T1", region, &["Y", "X"])).unwrap();
    c.create_team(team("T2", region, &[])).unwrap();
    let all = c.get_teams_with_tags(region).unwrap();
    assert_eq!(all.len(), 2);
    assert_eq!(all[0].tags.len(), 2);
    assert_eq!(all[0].tags[0].name, "X");
    assert!(all[1].tags.is_empty());
    assert!(c.get_teams_with_tags(region + 100).is_none());
}

#[test]
fn duplicate_tag_is_rejected() {
    let (mut c, _, _) = store_with_field();
    c.create_group("a".to_string()).unwrap();
    assert_eq!(c.create_group("A".to_string()), Err(CreateGroupError::DuplicateTag));
    assert_eq!(c.get_groups().len(), 1);
}

#[test]
fn deleted_group_name_can_return() {
    let (mut c, _, _) = store_with_field();
    let g = c.create_group("Juniors".to_string()).unwrap();
    c.delete_group(g.id);
    assert!(c.get_groups().is_empty());
    assert!(c.create_group("JUNIORS".to_string()).is_ok());
}

#[test]
fn fields_of_a_region() {
    let (mut c, region, f) = store_with_field();
    assert_eq!(c.get_fields(region).unwrap().len(), 1);
    assert!(c.get_fields(region + 100).is_none());
    assert_eq!(c.get_field(f).len(), 1);
    c.delete_field(f);
    assert!(c.get_field(f).is_empty());
    assert_eq!(c.get_regions().len(), 1);
    assert_eq!(c.delete_regions(), 1);
    assert!(c.get_regions().is_empty());
}

#[test]
fn region_and_field_names_are_validated() {
    assert_eq!(CreateRegionInput::new(String::new()).validate(), Err(RegionValidationError::EmptyName));
    assert_eq!(
        CreateRegionInput::new("é".repeat(33)).validate(),
        Err(RegionValidationError::NameTooLong { len: 66 })
    );
    assert_eq!(CreateRegionInput::new("x".repeat(64)).validate(), Ok(()));
    assert_eq!(CreateFieldInput::new(String::new(), 1).validate(), Err(FieldValidationError::EmptyName));
    assert_eq!(
        CreateFieldInput::new("y".repeat(70), 1).validate(),
        Err(FieldValidationError::NameTooLong { len: 70 })
    );
    assert_eq!(CreateFieldInput::new("Pitch".to_string(), 1).validate(), Ok(()));
    assert_eq!(team("Ok", 1, &[]).validate(), Ok(()));
}

#[test]
fn config_keeps_its_url() {
    let c = Config::new("sqlite::memory:".to_string());
    assert_eq!(c.connection_url(), "sqlite::memory:");
}

fn row(id: i32, field_id: i32, start: &str, end: &str) -> StoredTimeSlot {
    StoredTimeSlot { id, field_id, start: start.to_string(), end: end.to_string() }
}

#[test]
fn stored_rows_are_read_as_utc() {
    let rows = vec![row(1, 7, "1970-01-01T00:00:10+00:00", "1970-01-01T01:00:20+01:00")];
    let r = conflicts(&rows, 7, at(15), at(25), None);
    assert_eq!(r, Err(TimeSlotError::Overlap { o_start: at(10), o_end: at(20) }));
    assert_eq!(conflicts(&rows, 7, at(20), at(25), None), Ok(()));
    assert_eq!(conflicts(&rows, 7, at(15), at(25), Some(1)), Ok(()));
    assert_eq!(conflicts(&rows, 8, at(15), at(25), None), Ok(()));
}

#[test]
fn unreadable_stored_row_is_a_parse_error() {
    let rows = vec![row(1, 7, "yesterday", "1970-01-01T00:00:20Z")];
    let r = conflicts(&rows, 7, at(15), at(25), None);
    assert_eq!(r, Err(TimeSlotError::ParseError("yesterday".to_string())));
}

#[test]
fn first_overlap_finds_the_earliest() {
    let booked = vec![
        Interval { start: at(0), end: at(5) },
        Interval { start: at(10), end: at(20) },
        Interval { start: at(12), end: at(14) },
    ];
    assert_eq!(first_overlap(&booked, at(13), at(15)), Some(1));
    assert_eq!(first_overlap(&booked, at(5), at(10)), None);
}

#[test]
fn instants_order_by_seconds_then_nanos() {
    assert!(Instant::new(1, 999).is_before(&Instant::new(2, 0)));
    assert!(Instant::new(1, 5).is_before(&Instant::new(1, 6)));
    assert!(!Instant::new(1, 6).is_before(&Instant::new(1, 6)));
}

#[test]
fn tag_helpers() {
    assert!(eq_ignore_ascii_case("Juniors", "jUNIORS"));
    assert!(!eq_ignore_ascii_case("Junior", "Juniors"));
    let names = vec!["Alpha".to_string(), "beta".to_string()];
    assert!(is_duplicate_tag(&names, "BETA"));
    assert!(!is_duplicate_tag(&names, "gamma"));
    let requested = vec!["A".to_string(), "C".to_string(), "D".to_string(), "C".to_string()];
    let resolved = vec!["A".to_string()];
    assert_eq!(missing_tags(&requested, &resolved), vec!["C".to_string(), "D".to_string()]);
    assert_eq!(group_decrements(&vec![4, 2, 4, 4, 9]), vec![(4, 3), (2, 1), (9, 1)]);
    assert!(group_decrements(&vec![]).is_empty());
}

#[test]
fn schedule_messages_are_numbered_from_zero() {
    assert_eq!(scheduler_endpoint(), "http://[::1]:10000");
    let a = ScheduleInput {
        fields: vec![FieldRequest { unique_id: 3, time_slots: vec![SlotRequest { start: 0, end: 60, concurrency: 2 }] }],
        team_groups: vec![vec![1, 2]],
    };
    let b = ScheduleInput { fields: vec![], team_groups: vec![] };
    let m = schedule_messages(vec![a.clone(), b.clone()]);
    assert_eq!(m.len(), 2);
    assert_eq!(m[0].unique_id, 0);
    assert_eq!(m[0].input, a);
    assert_eq!(m[1].unique_id, 1);
    assert_eq!(m[1].input, b);
}

#[test]
fn overlap_is_reported_before_a_missing_slot() {
    let (mut c, _, f) = store_with_field();
    let s = book(&mut c, f, 10, 20).unwrap();
    let r = c.move_time_slot(MoveTimeSlotInput { field_id: f, id: s.id + 100, new_start: at(15), new_end: at(25) });
    assert_eq!(r, Err(TimeSlotError::Overlap { o_start: at(10), o_end: at(20) }));
}

#[test]
fn stored_move_checks_conflicts_then_presence() {
    let rows = vec![
        row(1, 7, "1970-01-01T00:00:10Z", "1970-01-01T00:00:20Z"),
        row(2, 7, "1970-01-01T00:00:30Z", "1970-01-01T00:00:40Z"),
    ];
    assert_eq!(check_move(&rows, 7, 1, at(10), at(20)), Ok(()));
    assert_eq!(
        check_move(&rows, 7, 1, at(25), at(35)),
        Err(TimeSlotError::Overlap { o_start: at(30), o_end: at(40) })
    );
    assert_eq!(check_move(&rows, 7, 9, at(0), at(5)), Err(TimeSlotError::NotFound));
    assert_eq!(check_move(&rows, 8, 1, at(0), at(5)), Err(TimeSlotError::NotFound));
    assert_eq!(
        check_move(&rows, 7, 9, at(15), at(16)),
        Err(TimeSlotError::Overlap { o_start: at(10), o_end: at(20) })
    );
}
