//! The booking store: regions, fields, teams, groups, team-group links and
//! time slots, with the operations that keep its invariants.
//!
//! Every operation takes the store by `&mut` and decides before it writes:
//! an operation that fails leaves the store exactly as it found it, so each
//! one runs as a single all-or-nothing unit, and a conflict check can never be
//! overtaken by another write between the check and the write.

use crate::conflict::{intervals_overlap, overlaps};
use crate::error::{CreateGroupError, CreateTeamError, StoreError, TimeSlotError};
use crate::input::{name_len, CreateFieldInput, CreateRegionInput, CreateTeamInput, MAX_NAME_LEN};
use crate::instant::Instant;
use crate::tags::{contains_name, group_decrements, holds_name, missing_tags, names_clash, occurrences};
use vstd::prelude::*;

verus! {

#[derive(Debug, PartialEq, Eq)]
pub struct Region {
    pub id: i32,
    pub title: String,
}

#[derive(Debug, PartialEq, Eq)]
pub struct Field {
    pub id: i32,
    pub name: String,
    pub region_owner: i32,
}

#[derive(Debug, PartialEq, Eq)]
pub struct Team {
    pub id: i32,
    pub name: String,
    pub region_owner: i32,
}

/// A named tag on teams, with the number of team links that reference it.
#[derive(Debug, PartialEq, Eq)]
pub struct TeamGroup {
    pub id: i32,
    pub name: String,
    pub usages: i32,
}

/// A link from a team to one of its groups.
#[derive(Clone, Copy, Debug, PartialEq, Eq, Structural)]
pub struct TeamGroupJoin {
    pub team: i32,
    pub group: i32,
}

/// A reservation of the half-open interval `[start, end)` on a field.
#[derive(Clone, Copy, Debug, PartialEq, Eq, Structural)]
pub struct TimeSlot {
    pub id: i32,
    pub field_id: i32,
    pub start: Instant,
    pub end: Instant,
}

/// A team together with the groups it is tagged with.
#[derive(Debug, PartialEq, Eq)]
pub struct TeamExtension {
    pub team: Team,
    pub tags: Vec<TeamGroup>,
}

#[derive(Clone, Copy, Debug, PartialEq, Eq, Structural)]
pub struct CreateTimeSlotInput {
    pub field_id: i32,
    pub start: Instant,
    pub end: Instant,
}

#[derive(Clone, Copy, Debug, PartialEq, Eq, Structural)]
pub struct MoveTimeSlotInput {
    pub field_id: i32,
    pub id: i32,
    pub new_start: Instant,
    pub new_end: Instant,
}

#[derive(Clone, Copy, Debug, PartialEq, Eq, Structural)]
pub struct ListReservationsBetweenInput {
    pub start: Instant,
    pub end: Instant,
}

/// Number of links in `links` that reference group `group`.
pub open spec fn link_count(links: Seq<TeamGroupJoin>, group: i32) -> nat
    decreases links.len(),
{
    if links.len() == 0 {
        0
    } else {
        link_count(links.drop_last(), group) + if links.last().group == group { 1nat } else { 0nat }
    }
}

/// No two slots on one field overlap.
pub open spec fn slots_disjoint(slots: Seq<TimeSlot>) -> bool {
    forall|a: int, b: int|
        0 <= a < slots.len() && 0 <= b < slots.len() && a != b && slots[a].field_id == slots[b].field_id
            ==> !overlaps(#[trigger] slots[a].start, slots[a].end, #[trigger] slots[b].start, slots[b].end)
}

/// Every group's usage count is the number of links that reference it.
pub open spec fn usages_exact(groups: Seq<TeamGroup>, links: Seq<TeamGroupJoin>) -> bool {
    forall|j: int| 0 <= j < groups.len() ==> (#[trigger] groups[j]).usages as int == link_count(links, groups[j].id) as int
}

/// No two group names are equal up to ASCII case.
pub open spec fn group_names_distinct(groups: Seq<TeamGroup>) -> bool {
    forall|a: int, b: int|
        0 <= a < groups.len() && 0 <= b < groups.len() && a != b ==> !names_clash(#[trigger] groups[a].name@, #[trigger] groups[b].name@)
}

/// The slot on which `slot` would collide with the interval `[start, end)` on
/// `field_id`, leaving the slot `exclude` out.
pub open spec fn collides(slot: TimeSlot, field_id: i32, start: Instant, end: Instant, exclude: Option<i32>) -> bool {
    slot.field_id == field_id && exclude != Some(slot.id) && overlaps(slot.start, slot.end, start, end)
}

pub open spec fn region_ids_below(s: Seq<Region>, n: i32) -> bool {
    forall|i: int| 0 <= i < s.len() ==> (#[trigger] s[i]).id < n
}

pub open spec fn field_ids_below(s: Seq<Field>, n: i32) -> bool {
    forall|i: int| 0 <= i < s.len() ==> (#[trigger] s[i]).id < n
}

pub open spec fn team_ids_below(s: Seq<Team>, n: i32) -> bool {
    forall|i: int| 0 <= i < s.len() ==> (#[trigger] s[i]).id < n
}

pub open spec fn group_ids_below(s: Seq<TeamGroup>, n: i32) -> bool {
    forall|i: int| 0 <= i < s.len() ==> (#[trigger] s[i]).id < n
}

pub open spec fn slot_ids_below(s: Seq<TimeSlot>, n: i32) -> bool {
    forall|i: int| 0 <= i < s.len() ==> (#[trigger] s[i]).id < n
}

pub open spec fn link_groups_below(s: Seq<TeamGroupJoin>, n: i32) -> bool {
    forall|i: int| 0 <= i < s.len() ==> (#[trigger] s[i]).group < n
}

pub open spec fn link_teams_below(s: Seq<TeamGroupJoin>, n: i32) -> bool {
    forall|i: int| 0 <= i < s.len() ==> (#[trigger] s[i]).team < n
}

/// A group that no link can name yet has no links.
pub proof fn lemma_link_count_fresh(links: Seq<TeamGroupJoin>, n: i32)
    requires
        link_groups_below(links, n),
    ensures
        link_count(links, n) == 0,
    decreases links.len(),
{
    if links.len() > 0 {
        lemma_link_count_fresh(links.drop_last(), n);
    }
}

/// Some group is named exactly `name`.
pub open spec fn group_named(groups: Seq<TeamGroup>, name: Seq<char>) -> bool {
    exists|j: int| 0 <= j < groups.len() && #[trigger] groups[j].name@ == name
}

/// Every requested tag names a group.
pub open spec fn tags_resolve(groups: Seq<TeamGroup>, tags: Seq<String>) -> bool {
    forall|i: int| 0 <= i < tags.len() ==> group_named(groups, #[trigger] tags[i]@)
}

/// Picks the groups whose name is among `tags`.
pub open spec fn tagged_by(tags: Seq<String>) -> spec_fn(TeamGroup) -> bool {
    |g: TeamGroup| holds_name(tags, g.name@)
}

/// The link from team `team` to a group.
pub open spec fn link_to(team: i32) -> spec_fn(TeamGroup) -> TeamGroupJoin {
    |g: TeamGroup| TeamGroupJoin { team, group: g.id }
}

/// `g` after one more team took it as a tag.
pub open spec fn bumped(g: TeamGroup) -> TeamGroup {
    TeamGroup { id: g.id, name: g.name, usages: (g.usages + 1) as i32 }
}

/// A team name is accepted: non-empty and at most `MAX_NAME_LEN` bytes.
pub open spec fn team_name_valid(name: Seq<char>) -> bool {
    name.len() > 0 && name_len(name) <= MAX_NAME_LEN
}

/// Picks the links whose team is not doomed.
pub open spec fn kept_by(doomed: spec_fn(i32) -> bool) -> spec_fn(TeamGroupJoin) -> bool {
    |l: TeamGroupJoin| !doomed(l.team)
}

/// Picks the links whose team is doomed.
pub open spec fn cut_by(doomed: spec_fn(i32) -> bool) -> spec_fn(TeamGroupJoin) -> bool {
    |l: TeamGroupJoin| doomed(l.team)
}

/// `g` after `n` of its links went away.
pub open spec fn dropped(g: TeamGroup, n: nat) -> TeamGroup {
    TeamGroup { id: g.id, name: g.name, usages: (g.usages - n) as i32 }
}

/// Some team of `teams` with identity `team` belongs to region `region`.
pub open spec fn region_team(teams: Seq<Team>, region: i32, team: i32) -> bool {
    exists|k: int| 0 <= k < teams.len() && (#[trigger] teams[k]).id == team && teams[k].region_owner == region
}

/// The teams whose identity is in `ids`.
pub open spec fn listed(ids: Seq<i32>) -> spec_fn(i32) -> bool {
    |t: i32| ids.contains(t)
}

/// The team with identity `id`.
pub open spec fn is_team(id: i32) -> spec_fn(i32) -> bool {
    |t: i32| t == id
}

/// The teams of `teams` that belong to region `region`.
pub open spec fn in_region(teams: Seq<Team>, region: i32) -> spec_fn(i32) -> bool {
    |t: i32| region_team(teams, region, t)
}

/// Some entry of `tally` is keyed by `g`.
pub open spec fn keyed(tally: Seq<(i32, usize)>, g: i32) -> bool {
    exists|m: int| 0 <= m < tally.len() && (#[trigger] tally[m]).0 == g
}

fn contains_id(ids: &Vec<i32>, x: i32) -> (r: bool)
    ensures
        r == ids@.contains(x),
{
    let mut i: usize = 0;
    while i < ids.len()
        invariant
            i <= ids@.len(),
            forall|j: int| 0 <= j < i ==> ids@[j] != x,
        decreases ids@.len() - i,
    {
        if ids[i] == x {
            return true;
        }
        i = i + 1;
    }
    false
}

impl TeamExtension {
    pub fn new(team: Team, tags: Vec<TeamGroup>) -> (r: TeamExtension)
        ensures
            r.team == team,
            r.tags == tags,
    {
        TeamExtension { team, tags }
    }
}

/// Some link joins team `team` to group `group`.
pub open spec fn linked(links: Seq<TeamGroupJoin>, team: i32, group: i32) -> bool {
    exists|k: int| 0 <= k < links.len() && #[trigger] links[k] == (TeamGroupJoin { team, group })
}

/// The groups that team `team` is linked to.
pub open spec fn tags_of(links: Seq<TeamGroupJoin>, team: i32) -> spec_fn(TeamGroup) -> bool {
    |g: TeamGroup| linked(links, team, g.id)
}

/// The rows that belong to region `region`.
pub open spec fn field_of(region: i32) -> spec_fn(Field) -> bool {
    |f: Field| f.region_owner == region
}

pub open spec fn team_of(region: i32) -> spec_fn(Team) -> bool {
    |t: Team| t.region_owner == region
}

/// The slots whose start lies in `[start, end]`, both ends included.
pub open spec fn starts_within(start: Instant, end: Instant) -> spec_fn(TimeSlot) -> bool {
    |s: TimeSlot| !s.start.before(start) && !end.before(s.start)
}

fn copy_region(r: &Region) -> (c: Region)
    ensures
        c == *r,
{
    Region { id: r.id, title: r.title.clone() }
}

fn copy_field(f: &Field) -> (c: Field)
    ensures
        c == *f,
{
    Field { id: f.id, name: f.name.clone(), region_owner: f.region_owner }
}

fn copy_team(t: &Team) -> (c: Team)
    ensures
        c == *t,
{
    Team { id: t.id, name: t.name.clone(), region_owner: t.region_owner }
}

fn copy_group(g: &TeamGroup) -> (c: TeamGroup)
    ensures
        c == *g,
{
    TeamGroup { id: g.id, name: g.name.clone(), usages: g.usages }
}

/// The in-memory store.
pub struct Client {
    regions: Vec<Region>,
    fields: Vec<Field>,
    teams: Vec<Team>,
    groups: Vec<TeamGroup>,
    links: Vec<TeamGroupJoin>,
    time_slots: Vec<TimeSlot>,
    next_id: i32,
}

impl Client {
    pub closed spec fn regions(&self) -> Seq<Region> {
        self.regions@
    }

    pub closed spec fn fields(&self) -> Seq<Field> {
        self.fields@
    }

    pub closed spec fn teams(&self) -> Seq<Team> {
        self.teams@
    }

    pub closed spec fn groups(&self) -> Seq<TeamGroup> {
        self.groups@
    }

    pub closed spec fn links(&self) -> Seq<TeamGroupJoin> {
        self.links@
    }

    pub closed spec fn slots(&self) -> Seq<TimeSlot> {
        self.time_slots@
    }

    /// The identity that the next created row receives.
    pub closed spec fn next_id(&self) -> i32 {
        self.next_id
    }

    /// Every identity handed out so far, and every group a link names, lies below `n`.
    pub open spec fn ids_below(&self, n: i32) -> bool {
        &&& region_ids_below(self.regions(), n)
        &&& field_ids_below(self.fields(), n)
        &&& team_ids_below(self.teams(), n)
        &&& group_ids_below(self.groups(), n)
        &&& slot_ids_below(self.slots(), n)
        &&& link_groups_below(self.links(), n)
        &&& link_teams_below(self.links(), n)
    }

    /// The store's invariant.
    pub open spec fn wf(&self) -> bool {
        &&& self.next_id() >= 1
        &&& self.ids_below(self.next_id())
        &&& forall|a: int, b: int| 0 <= a < b < self.regions().len() ==> self.regions()[a].id != self.regions()[b].id
        &&& forall|a: int, b: int| 0 <= a < b < self.fields().len() ==> self.fields()[a].id != self.fields()[b].id
        &&& forall|a: int, b: int| 0 <= a < b < self.teams().len() ==> self.teams()[a].id != self.teams()[b].id
        &&& forall|a: int, b: int| 0 <= a < b < self.groups().len() ==> self.groups()[a].id != self.groups()[b].id
        &&& forall|a: int, b: int| 0 <= a < b < self.slots().len() ==> self.slots()[a].id != self.slots()[b].id
        &&& forall|a: int, b: int| 0 <= a < b < self.links().len() ==> self.links()[a] != self.links()[b]
        &&& slots_disjoint(self.slots())
        &&& usages_exact(self.groups(), self.links())
        &&& group_names_distinct(self.groups())
    }

    /// An empty store.
    pub fn new() -> (r: Client)
        ensures
            r.wf(),
            r.next_id() == 1,
            r.regions().len() == 0,
            r.fields().len() == 0,
            r.teams().len() == 0,
            r.groups().len() == 0,
            r.links().len() == 0,
            r.slots().len() == 0,
    {
        Client {
            regions: Vec::new(),
            fields: Vec::new(),
            teams: Vec::new(),
            groups: Vec::new(),
            links: Vec::new(),
            time_slots: Vec::new(),
            next_id: 1,
        }
    }

    /// Position of the first slot that collides with `[start, end)` on `field_id`.
    fn find_collision(&self, field_id: i32, start: Instant, end: Instant, exclude: Option<i32>) -> (r: Option<usize>)
        ensures
            match r {
                Some(k) => k < self.slots().len() && collides(self.slots()[k as int], field_id, start, end, exclude)
                    && forall|j: int| 0 <= j < k ==> !collides(#[trigger] self.slots()[j], field_id, start, end, exclude),
                None => forall|j: int| 0 <= j < self.slots().len() ==> !collides(#[trigger] self.slots()[j], field_id, start, end, exclude),
            },
    {
        let mut i: usize = 0;
        while i < self.time_slots.len()
            invariant
                i <= self.time_slots@.len(),
                forall|j: int| 0 <= j < i ==> !collides(#[trigger] self.time_slots@[j], field_id, start, end, exclude),
            decreases self.time_slots@.len() - i,
        {
            let s = self.time_slots[i];
            let skip = match exclude {
                Some(x) => x == s.id,
                None => false,
            };
            if s.field_id == field_id && !skip && intervals_overlap(&s.start, &s.end, &start, &end) {
                return Some(i);
            }
            i = i + 1;
        }
        None
    }

    /// Books `[input.start, input.end)` on the field unless a slot there overlaps it.
    pub fn create_time_slot(&mut self, input: CreateTimeSlotInput) -> (r: Result<TimeSlot, TimeSlotError>)
        requires
            old(self).wf(),
        ensures
            final(self).wf(),
            r is Ok <==> (old(self).next_id() < i32::MAX && forall|j: int| 0 <= j < old(self).slots().len()
                ==> !collides(#[trigger] old(self).slots()[j], input.field_id, input.start, input.end, None)),
            r is Ok ==> {
                &&& r->Ok_0 == (TimeSlot { id: old(self).next_id(), field_id: input.field_id, start: input.start, end: input.end })
                &&& final(self).slots() == old(self).slots().push(r->Ok_0)
                &&& final(self).next_id() == old(self).next_id() + 1
                &&& final(self).regions() == old(self).regions()
                &&& final(self).fields() == old(self).fields()
                &&& final(self).teams() == old(self).teams()
                &&& final(self).groups() == old(self).groups()
                &&& final(self).links() == old(self).links()
            },
            r is Err ==> *final(self) == *old(self),
            r matches Err(TimeSlotError::Overlap { o_start, o_end }) ==> exists|k: int|
                0 <= k < old(self).slots().len() && collides(#[trigger] old(self).slots()[k], input.field_id, input.start, input.end, None)
                    && old(self).slots()[k].start == o_start && old(self).slots()[k].end == o_end
                    && forall|j: int| 0 <= j < k ==> !collides(#[trigger] old(self).slots()[j], input.field_id, input.start, input.end, None),
            r is Err ==> r matches Err(TimeSlotError::Overlap { .. }) || r matches Err(TimeSlotError::DatabaseError(_)),
            (exists|j: int| 0 <= j < old(self).slots().len() && collides(#[trigger] old(self).slots()[j], input.field_id, input.start, input.end, None))
                ==> r matches Err(TimeSlotError::Overlap { .. }),
    {
        match self.find_collision(input.field_id, input.start, input.end, None) {
            Some(k) => {
                let s = self.time_slots[k];
                return Err(TimeSlotError::Overlap { o_start: s.start, o_end: s.end });
            },
            None => {},
        }
        if self.next_id == i32::MAX {
            return Err(TimeSlotError::DatabaseError("identity space exhausted".to_string()));
        }
        let slot = TimeSlot { id: self.next_id, field_id: input.field_id, start: input.start, end: input.end };
        let ghost before = self.time_slots@;
        let ghost pre = *self;
        self.time_slots.push(slot);
        self.next_id = self.next_id + 1;
        proof {
            assert(pre.ids_below(self.next_id()));
            assert forall|a: int, b: int|
                0 <= a < self.time_slots@.len() && 0 <= b < self.time_slots@.len() && a != b
                    && self.time_slots@[a].field_id == self.time_slots@[b].field_id
                implies !overlaps(#[trigger] self.time_slots@[a].start, self.time_slots@[a].end, #[trigger] self.time_slots@[b].start, self.time_slots@[b].end) by {
                if a == before.len() as int {
                    assert(!collides(before[b], input.field_id, input.start, input.end, None));
                } else if b == before.len() as int {
                    assert(!collides(before[a], input.field_id, input.start, input.end, None));
                } else {
                    assert(before[a] == self.time_slots@[a]);
                    assert(before[b] == self.time_slots@[b]);
                }
            }
            assert forall|a: int, b: int| 0 <= a < b < self.time_slots@.len() implies self.time_slots@[a].id != self.time_slots@[b].id by {
                if b == before.len() as int {
                    assert(self.time_slots@[a] == before[a]);
                }
            }
            assert(slots_disjoint(self.slots()));
            assert(usages_exact(self.groups(), self.links()));
        }
        Ok(slot)
    }

    /// Position of the slot with identity `id`.
    fn slot_position(&self, id: i32) -> (r: Option<usize>)
        ensures
            match r {
                Some(p) => p < self.slots().len() && self.slots()[p as int].id == id,
                None => forall|j: int| 0 <= j < self.slots().len() ==> (#[trigger] self.slots()[j]).id != id,
            },
    {
        let mut i: usize = 0;
        while i < self.time_slots.len()
            invariant
                i <= self.time_slots@.len(),
                forall|j: int| 0 <= j < i ==> (#[trigger] self.time_slots@[j]).id != id,
            decreases self.time_slots@.len() - i,
        {
            if self.time_slots[i].id == id {
                return Some(i);
            }
            i = i + 1;
        }
        None
    }

    /// Moves slot `input.id` on `input.field_id` to `[input.new_start,
    /// input.new_end)` unless another slot on the field overlaps that interval.
    pub fn move_time_slot(&mut self, input: MoveTimeSlotInput) -> (r: Result<(), TimeSlotError>)
        requires
            old(self).wf(),
        ensures
            final(self).wf(),
            r is Ok <==> (exists|p: int| 0 <= p < old(self).slots().len() && #[trigger] old(self).slots()[p].id == input.id
                && old(self).slots()[p].field_id == input.field_id)
                && forall|j: int| 0 <= j < old(self).slots().len()
                    ==> !collides(#[trigger] old(self).slots()[j], input.field_id, input.new_start, input.new_end, Some(input.id)),
            r is Ok ==> exists|p: int| 0 <= p < old(self).slots().len() && #[trigger] old(self).slots()[p].id == input.id
                && final(self).slots() == old(self).slots().update(p, TimeSlot {
                    id: input.id,
                    field_id: input.field_id,
                    start: input.new_start,
                    end: input.new_end,
                }),
            r is Ok ==> {
                &&& final(self).next_id() == old(self).next_id()
                &&& final(self).regions() == old(self).regions()
                &&& final(self).fields() == old(self).fields()
                &&& final(self).teams() == old(self).teams()
                &&& final(self).groups() == old(self).groups()
                &&& final(self).links() == old(self).links()
            },
            r is Err ==> *final(self) == *old(self),
            r matches Err(TimeSlotError::Overlap { .. }) <==> exists|j: int| 0 <= j < old(self).slots().len()
                && collides(#[trigger] old(self).slots()[j], input.field_id, input.new_start, input.new_end, Some(input.id)),
            r == Err::<(), TimeSlotError>(TimeSlotError::NotFound) <==> (forall|j: int| 0 <= j < old(self).slots().len()
                ==> !collides(#[trigger] old(self).slots()[j], input.field_id, input.new_start, input.new_end, Some(input.id)))
                && forall|p: int| 0 <= p < old(self).slots().len()
                ==> !(#[trigger] old(self).slots()[p].id == input.id && old(self).slots()[p].field_id == input.field_id),
            r matches Err(TimeSlotError::Overlap { o_start, o_end }) ==> exists|k: int|
                0 <= k < old(self).slots().len() && collides(#[trigger] old(self).slots()[k], input.field_id, input.new_start, input.new_end, Some(input.id))
                    && old(self).slots()[k].start == o_start && old(self).slots()[k].end == o_end
                    && forall|j: int| 0 <= j < k ==> !collides(#[trigger] old(self).slots()[j], input.field_id, input.new_start, input.new_end, Some(input.id)),
            r is Err ==> r matches Err(TimeSlotError::Overlap { .. }) || r matches Err(TimeSlotError::NotFound),
    {
        match self.find_collision(input.field_id, input.new_start, input.new_end, Some(input.id)) {
            Some(k) => {
                let s = self.time_slots[k];
                return Err(TimeSlotError::Overlap { o_start: s.start, o_end: s.end });
            },
            None => {},
        }
        let p = match self.slot_position(input.id) {
            Some(p) => p,
            None => {
                return Err(TimeSlotError::NotFound);
            },
        };
        if self.time_slots[p].field_id != input.field_id {
            proof {
                assert forall|q: int| 0 <= q < self.slots().len() implies !(#[trigger] self.slots()[q].id == input.id
                    && self.slots()[q].field_id == input.field_id) by {
                    if q != p && self.slots()[q].id == input.id {
                        if q < p {
                            assert(self.slots()[q].id != self.slots()[p as int].id);
                        } else {
                            assert(self.slots()[p as int].id != self.slots()[q].id);
                        }
                    }
                }
            }
            return Err(TimeSlotError::NotFound);
        }
        let moved = TimeSlot { id: input.id, field_id: input.field_id, start: input.new_start, end: input.new_end };
        let ghost before = self.time_slots@;
        let ghost pre = *self;
        self.time_slots.set(p, moved);
        proof {
            assert(self.time_slots@ == before.update(p as int, moved));
            assert forall|a: int, b: int|
                0 <= a < self.time_slots@.len() && 0 <= b < self.time_slots@.len() && a != b
                    && self.time_slots@[a].field_id == self.time_slots@[b].field_id
                implies !overlaps(#[trigger] self.time_slots@[a].start, self.time_slots@[a].end, #[trigger] self.time_slots@[b].start, self.time_slots@[b].end) by {
                if a == p as int {
                    assert(!collides(before[b], input.field_id, input.new_start, input.new_end, Some(input.id)));
                    if b < a {
                        assert(before[b].id != before[a].id);
                    } else {
                        assert(before[a].id != before[b].id);
                    }
                } else if b == p as int {
                    assert(!collides(before[a], input.field_id, input.new_start, input.new_end, Some(input.id)));
                    if b < a {
                        assert(before[b].id != before[a].id);
                    } else {
                        assert(before[a].id != before[b].id);
                    }
                } else {
                    assert(before[a] == self.time_slots@[a]);
                    assert(before[b] == self.time_slots@[b]);
                }
            }
            assert forall|a: int, b: int| 0 <= a < b < self.time_slots@.len() implies self.time_slots@[a].id != self.time_slots@[b].id by {
                assert(before[a].id != before[b].id);
            }
            assert(slot_ids_below(self.slots(), self.next_id())) by {
                assert forall|i: int| 0 <= i < self.slots().len() implies (#[trigger] self.slots()[i]).id < self.next_id() by {
                    assert(before[i].id < pre.next_id());
                }
            }
        }
        Ok(())
    }

    /// Removes the slot with identity `id`, if there is one.
    pub fn delete_time_slot(&mut self, id: i32)
        requires
            old(self).wf(),
        ensures
            final(self).wf(),
            (forall|j: int| 0 <= j < old(self).slots().len() ==> (#[trigger] old(self).slots()[j]).id != id)
                ==> *final(self) == *old(self),
            forall|p: int| 0 <= p < old(self).slots().len() && (#[trigger] old(self).slots()[p]).id == id
                ==> final(self).slots() == old(self).slots().remove(p),
            final(self).next_id() == old(self).next_id(),
            final(self).regions() == old(self).regions(),
            final(self).fields() == old(self).fields(),
            final(self).teams() == old(self).teams(),
            final(self).groups() == old(self).groups(),
            final(self).links() == old(self).links(),
    {
        match self.slot_position(id) {
            Some(p) => {
                let ghost before = self.time_slots@;
                let ghost pre = *self;
                self.time_slots.remove(p);
                proof {
                    assert forall|q: int| 0 <= q < before.len() && (#[trigger] before[q]).id == id implies q == p as int by {
                        if q < p {
                            assert(before[q].id != before[p as int].id);
                        } else if q > p {
                            assert(before[p as int].id != before[q].id);
                        }
                    }
                    assert forall|a: int, b: int|
                        0 <= a < self.time_slots@.len() && 0 <= b < self.time_slots@.len() && a != b
                            && self.time_slots@[a].field_id == self.time_slots@[b].field_id
                        implies !overlaps(#[trigger] self.time_slots@[a].start, self.time_slots@[a].end, #[trigger] self.time_slots@[b].start, self.time_slots@[b].end) by {
                        let a0 = if a < p { a } else { a + 1 };
                        let b0 = if b < p { b } else { b + 1 };
                        assert(self.time_slots@[a] == before[a0]);
                        assert(self.time_slots@[b] == before[b0]);
                    }
                    assert forall|a: int, b: int| 0 <= a < b < self.time_slots@.len() implies self.time_slots@[a].id != self.time_slots@[b].id by {
                        let a0 = if a < p { a } else { a + 1 };
                        let b0 = if b < p { b } else { b + 1 };
                        assert(self.time_slots@[a] == before[a0]);
                        assert(self.time_slots@[b] == before[b0]);
                    }
                    assert(slot_ids_below(self.slots(), self.next_id())) by {
                        assert forall|i: int| 0 <= i < self.slots().len() implies (#[trigger] self.slots()[i]).id < self.next_id() by {
                            let i0 = if i < p { i } else { i + 1 };
                            assert(self.time_slots@[i] == before[i0]);
                        }
                    }
                }
            },
            None => {},
        }
    }

    /// The slots booked on `field_id`, in storage order.
    pub fn get_time_slots(&self, field_id: i32) -> (r: Vec<TimeSlot>)
        ensures
            r@ == self.slots().filter(|s: TimeSlot| s.field_id == field_id),
    {
        let mut out: Vec<TimeSlot> = Vec::new();
        let mut i: usize = 0;
        while i < self.time_slots.len()
            invariant
                i <= self.time_slots@.len(),
                out@ == self.time_slots@.take(i as int).filter(|s: TimeSlot| s.field_id == field_id),
            decreases self.time_slots@.len() - i,
        {
            proof {
                reveal_with_fuel(Seq::filter, 1);
                assert(self.time_slots@.take(i + 1).drop_last() =~= self.time_slots@.take(i as int));
            }
            let s = self.time_slots[i];
            if s.field_id == field_id {
                out.push(s);
            }
            i = i + 1;
        }
        proof {
            assert(self.time_slots@.take(self.time_slots@.len() as int) =~= self.time_slots@);
        }
        out
    }

    /// Some group's name equals `tag` up to ASCII case.
    fn clashing_group(&self, tag: &str) -> (r: bool)
        ensures
            r == exists|j: int| 0 <= j < self.groups().len() && names_clash(#[trigger] self.groups()[j].name@, tag@),
    {
        let mut i: usize = 0;
        while i < self.groups.len()
            invariant
                i <= self.groups@.len(),
                forall|j: int| 0 <= j < i ==> !names_clash(#[trigger] self.groups@[j].name@, tag@),
            decreases self.groups@.len() - i,
        {
            if crate::tags::eq_ignore_ascii_case(self.groups[i].name.as_str(), tag) {
                assert(names_clash(self.groups()[i as int].name@, tag@));
                return true;
            }
            i = i + 1;
        }
        false
    }

    /// Adds a group named `tag` with no usages, unless a group of that name up
    /// to ASCII case exists.
    pub fn create_group(&mut self, tag: String) -> (r: Result<TeamGroup, CreateGroupError>)
        requires
            old(self).wf(),
        ensures
            final(self).wf(),
            r == Err::<TeamGroup, CreateGroupError>(CreateGroupError::DuplicateTag) <==> exists|j: int|
                0 <= j < old(self).groups().len() && names_clash(#[trigger] old(self).groups()[j].name@, tag@),
            r is Ok <==> old(self).next_id() < i32::MAX && forall|j: int|
                0 <= j < old(self).groups().len() ==> !names_clash(#[trigger] old(self).groups()[j].name@, tag@),
            r is Ok ==> {
                &&& r->Ok_0.id == old(self).next_id()
                &&& r->Ok_0.name@ == tag@
                &&& r->Ok_0.usages == 0
                &&& final(self).groups() == old(self).groups().push(r->Ok_0)
                &&& final(self).next_id() == old(self).next_id() + 1
                &&& final(self).regions() == old(self).regions()
                &&& final(self).fields() == old(self).fields()
                &&& final(self).teams() == old(self).teams()
                &&& final(self).links() == old(self).links()
                &&& final(self).slots() == old(self).slots()
            },
            r is Err ==> *final(self) == *old(self),
            r is Err ==> r matches Err(CreateGroupError::DuplicateTag) || r matches Err(CreateGroupError::DatabaseError(_)),
    {
        if self.clashing_group(tag.as_str()) {
            return Err(CreateGroupError::DuplicateTag);
        }
        if self.next_id == i32::MAX {
            return Err(CreateGroupError::DatabaseError("identity space exhausted".to_string()));
        }
        let group = TeamGroup { id: self.next_id, name: tag, usages: 0 };
        let answer = TeamGroup { id: group.id, name: group.name.clone(), usages: 0 };
        let ghost before = self.groups@;
        let ghost pre = *self;
        self.groups.push(group);
        self.next_id = self.next_id + 1;
        proof {
            assert(pre.ids_below(self.next_id()));
            lemma_link_count_fresh(self.links@, pre.next_id());
            assert forall|j: int| 0 <= j < self.groups@.len() implies (#[trigger] self.groups@[j]).usages as int
                == link_count(self.links@, self.groups@[j].id) as int by {
                if j < before.len() {
                    assert(before[j] == self.groups@[j]);
                }
            }
            assert forall|a: int, b: int| 0 <= a < b < self.groups@.len() implies self.groups@[a].id != self.groups@[b].id by {
                assert(self.groups@[a] == before[a]);
            }
            assert forall|a: int, b: int| 0 <= a < self.groups@.len() && 0 <= b < self.groups@.len() && a != b
                implies !names_clash(#[trigger] self.groups@[a].name@, #[trigger] self.groups@[b].name@) by {
                if a == before.len() as int {
                    assert(self.groups@[b] == before[b]);
                    assert(!names_clash(before[b].name@, tag@));
                } else if b == before.len() as int {
                    assert(self.groups@[a] == before[a]);
                    assert(!names_clash(before[a].name@, tag@));
                } else {
                    assert(self.groups@[a] == before[a]);
                    assert(self.groups@[b] == before[b]);
                }
            }
            assert(group_ids_below(self.groups(), self.next_id())) by {
                assert forall|i: int| 0 <= i < self.groups().len() implies (#[trigger] self.groups()[i]).id < self.next_id() by {
                    if i < before.len() {
                        assert(self.groups@[i] == before[i]);
                    }
                }
            }
        }
        Ok(answer)
    }

    /// Position of the group with identity `id`.
    fn group_position(&self, id: i32) -> (r: Option<usize>)
        ensures
            match r {
                Some(p) => p < self.groups().len() && self.groups()[p as int].id == id,
                None => forall|j: int| 0 <= j < self.groups().len() ==> (#[trigger] self.groups()[j]).id != id,
            },
    {
        let mut i: usize = 0;
        while i < self.groups.len()
            invariant
                i <= self.groups@.len(),
                forall|j: int| 0 <= j < i ==> (#[trigger] self.groups@[j]).id != id,
            decreases self.groups@.len() - i,
        {
            if self.groups[i].id == id {
                return Some(i);
            }
            i = i + 1;
        }
        None
    }

    /// Removes the group with identity `id`, if there is one. Links that still
    /// name it are left in place.
    pub fn delete_group(&mut self, id: i32)
        requires
            old(self).wf(),
        ensures
            final(self).wf(),
            (forall|j: int| 0 <= j < old(self).groups().len() ==> (#[trigger] old(self).groups()[j]).id != id)
                ==> *final(self) == *old(self),
            forall|p: int| 0 <= p < old(self).groups().len() && (#[trigger] old(self).groups()[p]).id == id
                ==> final(self).groups() == old(self).groups().remove(p),
            final(self).next_id() == old(self).next_id(),
            final(self).regions() == old(self).regions(),
            final(self).fields() == old(self).fields(),
            final(self).teams() == old(self).teams(),
            final(self).links() == old(self).links(),
            final(self).slots() == old(self).slots(),
    {
        match self.group_position(id) {
            Some(p) => {
                let ghost before = self.groups@;
                self.groups.remove(p);
                proof {
                    assert forall|q: int| 0 <= q < before.len() && (#[trigger] before[q]).id == id implies q == p as int by {
                        if q < p {
                            assert(before[q].id != before[p as int].id);
                        } else if q > p {
                            assert(before[p as int].id != before[q].id);
                        }
                    }
                    assert forall|j: int| 0 <= j < self.groups@.len() implies (#[trigger] self.groups@[j]).usages as int
                        == link_count(self.links@, self.groups@[j].id) as int by {
                        let j0 = if j < p { j } else { j + 1 };
                        assert(self.groups@[j] == before[j0]);
                    }
                    assert forall|a: int, b: int| 0 <= a < b < self.groups@.len() implies self.groups@[a].id != self.groups@[b].id by {
                        let a0 = if a < p { a } else { a + 1 };
                        let b0 = if b < p { b } else { b + 1 };
                        assert(self.groups@[a] == before[a0]);
                        assert(self.groups@[b] == before[b0]);
                    }
                    assert forall|a: int, b: int| 0 <= a < self.groups@.len() && 0 <= b < self.groups@.len() && a != b
                        implies !names_clash(#[trigger] self.groups@[a].name@, #[trigger] self.groups@[b].name@) by {
                        let a0 = if a < p { a } else { a + 1 };
                        let b0 = if b < p { b } else { b + 1 };
                        assert(self.groups@[a] == before[a0]);
                        assert(self.groups@[b] == before[b0]);
                    }
                    assert(group_ids_below(self.groups(), self.next_id())) by {
                        assert forall|i: int| 0 <= i < self.groups().len() implies (#[trigger] self.groups()[i]).id < self.next_id() by {
                            let i0 = if i < p { i } else { i + 1 };
                            assert(self.groups@[i] == before[i0]);
                        }
                    }
                }
            },
            None => {},
        }
    }

    /// All groups, in storage order.
    pub fn get_groups(&self) -> (r: Vec<TeamGroup>)
        ensures
            r@ == self.groups(),
    {
        let mut out: Vec<TeamGroup> = Vec::new();
        let mut i: usize = 0;
        while i < self.groups.len()
            invariant
                i <= self.groups@.len(),
                out@ == self.groups@.take(i as int),
            decreases self.groups@.len() - i,
        {
            let g = &self.groups[i];
            out.push(TeamGroup { id: g.id, name: g.name.clone(), usages: g.usages });
            proof {
                assert(self.groups@.take(i + 1) =~= self.groups@.take(i as int).push(self.groups@[i as int]));
            }
            i = i + 1;
        }
        proof {
            assert(self.groups@.take(self.groups@.len() as int) =~= self.groups@);
        }
        out
    }

    /// Adds a region titled `input.title`.
    pub fn create_region(&mut self, input: CreateRegionInput) -> (r: Result<Region, StoreError>)
        requires
            old(self).wf(),
        ensures
            final(self).wf(),
            r is Ok <==> old(self).next_id() < i32::MAX,
            r is Ok ==> {
                &&& r->Ok_0.id == old(self).next_id()
                &&& r->Ok_0.title@ == input.title@
                &&& final(self).regions() == old(self).regions().push(r->Ok_0)
                &&& final(self).next_id() == old(self).next_id() + 1
                &&& final(self).fields() == old(self).fields()
                &&& final(self).teams() == old(self).teams()
                &&& final(self).groups() == old(self).groups()
                &&& final(self).links() == old(self).links()
                &&& final(self).slots() == old(self).slots()
            },
            r is Err ==> *final(self) == *old(self),
    {
        if self.next_id == i32::MAX {
            return Err(StoreError::IdentitiesExhausted);
        }
        let region = Region { id: self.next_id, title: input.title };
        let answer = Region { id: region.id, title: region.title.clone() };
        let ghost before = self.regions@;
        let ghost pre = *self;
        self.regions.push(region);
        self.next_id = self.next_id + 1;
        proof {
            assert(pre.ids_below(self.next_id()));
            assert forall|a: int, b: int| 0 <= a < b < self.regions@.len() implies self.regions@[a].id != self.regions@[b].id by {
                assert(self.regions@[a] == before[a]);
                if b < before.len() {
                    assert(self.regions@[b] == before[b]);
                }
            }
            assert(region_ids_below(self.regions(), self.next_id())) by {
                assert forall|i: int| 0 <= i < self.regions().len() implies (#[trigger] self.regions()[i]).id < self.next_id() by {
                    if i < before.len() {
                        assert(self.regions@[i] == before[i]);
                    }
                }
            }
        }
        Ok(answer)
    }

    /// Adds a field named `input.name` to region `input.region_id`.
    pub fn create_field(&mut self, input: CreateFieldInput) -> (r: Result<Field, StoreError>)
        requires
            old(self).wf(),
        ensures
            final(self).wf(),
            r is Ok <==> old(self).next_id() < i32::MAX,
            r is Ok ==> {
                &&& r->Ok_0.id == old(self).next_id()
                &&& r->Ok_0.name@ == input.name@
                &&& r->Ok_0.region_owner == input.region_id
                &&& final(self).fields() == old(self).fields().push(r->Ok_0)
                &&& final(self).next_id() == old(self).next_id() + 1
                &&& final(self).regions() == old(self).regions()
                &&& final(self).teams() == old(self).teams()
                &&& final(self).groups() == old(self).groups()
                &&& final(self).links() == old(self).links()
                &&& final(self).slots() == old(self).slots()
            },
            r is Err ==> *final(self) == *old(self),
    {
        if self.next_id == i32::MAX {
            return Err(StoreError::IdentitiesExhausted);
        }
        let field = Field { id: self.next_id, name: input.name, region_owner: input.region_id };
        let answer = Field { id: field.id, name: field.name.clone(), region_owner: field.region_owner };
        let ghost before = self.fields@;
        let ghost pre = *self;
        self.fields.push(field);
        self.next_id = self.next_id + 1;
        proof {
            assert(pre.ids_below(self.next_id()));
            assert forall|a: int, b: int| 0 <= a < b < self.fields@.len() implies self.fields@[a].id != self.fields@[b].id by {
                assert(self.fields@[a] == before[a]);
                if b < before.len() {
                    assert(self.fields@[b] == before[b]);
                }
            }
            assert(field_ids_below(self.fields(), self.next_id())) by {
                assert forall|i: int| 0 <= i < self.fields().len() implies (#[trigger] self.fields()[i]).id < self.next_id() by {
                    if i < before.len() {
                        assert(self.fields@[i] == before[i]);
                    }
                }
            }
        }
        Ok(answer)
    }

    /// The names of the groups that `tags` requests, and whether one of them
    /// has reached the largest usage count.
    fn resolve_tags(&self, tags: &Vec<String>) -> (r: (Vec<String>, bool))
        ensures
            forall|t: Seq<char>| holds_name(r.0@, t) <==> (holds_name(tags@, t) && group_named(self.groups(), t)),
            r.1 <==> exists|j: int| 0 <= j < self.groups().len() && holds_name(tags@, (#[trigger] self.groups()[j]).name@)
                && self.groups()[j].usages == i32::MAX,
    {
        let mut names: Vec<String> = Vec::new();
        let mut full = false;
        let mut i: usize = 0;
        while i < self.groups.len()
            invariant
                i <= self.groups@.len(),
                forall|k: int| 0 <= k < names@.len() ==> holds_name(tags@, #[trigger] names@[k]@) && group_named(self.groups@, names@[k]@),
                forall|j: int| 0 <= j < i && holds_name(tags@, (#[trigger] self.groups@[j]).name@) ==> holds_name(names@, self.groups@[j].name@),
                full <==> exists|j: int| 0 <= j < i && holds_name(tags@, (#[trigger] self.groups@[j]).name@) && self.groups@[j].usages == i32::MAX,
            decreases self.groups@.len() - i,
        {
            let g = &self.groups[i];
            if contains_name(tags, &g.name) {
                let ghost before = names@;
                names.push(g.name.clone());
                proof {
                    assert(names@[names@.len() - 1]@ == self.groups@[i as int].name@);
                    assert forall|j: int| 0 <= j <= i && holds_name(tags@, (#[trigger] self.groups@[j]).name@)
                        implies holds_name(names@, self.groups@[j].name@) by {
                        if j < i {
                            let k = choose|k: int| 0 <= k < before.len() && #[trigger] before[k]@ == self.groups@[j].name@;
                            assert(names@[k] == before[k]);
                        } else {
                            assert(names@[names@.len() - 1]@ == self.groups@[j].name@);
                        }
                    }
                    assert forall|k: int| 0 <= k < names@.len() implies holds_name(tags@, #[trigger] names@[k]@) && group_named(self.groups@, names@[k]@) by {
                        if k < before.len() {
                            assert(names@[k] == before[k]);
                        } else {
                            assert(self.groups@[i as int].name@ == names@[k]@);
                        }
                    }
                }
                if g.usages == i32::MAX {
                    full = true;
                }
            }
            i = i + 1;
        }
        proof {
            assert forall|t: Seq<char>| holds_name(tags@, t) && group_named(self.groups(), t) implies holds_name(names@, t) by {
                let j = choose|j: int| 0 <= j < self.groups@.len() && #[trigger] self.groups@[j].name@ == t;
                assert(holds_name(tags@, self.groups@[j].name@));
            }
            if full {
                let j = choose|j: int| 0 <= j < self.groups@.len() && holds_name(tags@, (#[trigger] self.groups@[j]).name@) && self.groups@[j].usages == i32::MAX;
                assert(holds_name(tags@, self.groups()[j].name@));
            }
            if exists|j: int| 0 <= j < self.groups().len() && holds_name(tags@, (#[trigger] self.groups()[j]).name@) && self.groups()[j].usages == i32::MAX {
                let j = choose|j: int| 0 <= j < self.groups().len() && holds_name(tags@, (#[trigger] self.groups()[j]).name@) && self.groups()[j].usages == i32::MAX;
                assert(holds_name(tags@, self.groups@[j].name@));
            }
        }
        (names, full)
    }

    /// Creates a team tagged with the groups that `input.tags` names, and adds
    /// one usage to each of those groups. Fails, writing nothing, when the name
    /// is not valid or when a requested tag names no group.
    pub fn create_team(&mut self, input: CreateTeamInput) -> (r: Result<TeamExtension, CreateTeamError>)
        requires
            old(self).wf(),
        ensures
            final(self).wf(),
            r matches Err(CreateTeamError::ValidationError(_)) <==> !team_name_valid(input.name@),
            r matches Err(CreateTeamError::MissingTags(_)) <==> team_name_valid(input.name@) && !tags_resolve(old(self).groups(), input.tags@),
            r matches Err(CreateTeamError::MissingTags(m)) ==> {
                &&& forall|i: int| 0 <= i < m@.len() ==> holds_name(input.tags@, #[trigger] m@[i]@) && !group_named(old(self).groups(), m@[i]@)
                &&& forall|i: int| 0 <= i < input.tags@.len() && !group_named(old(self).groups(), #[trigger] input.tags@[i]@) ==> holds_name(m@, input.tags@[i]@)
                &&& forall|a: int, b: int| 0 <= a < b < m@.len() ==> m@[a]@ != m@[b]@
            },
            r is Ok <==> team_name_valid(input.name@) && tags_resolve(old(self).groups(), input.tags@) && old(self).next_id() < i32::MAX
                && forall|j: int| 0 <= j < old(self).groups().len() && holds_name(input.tags@, (#[trigger] old(self).groups()[j]).name@)
                    ==> old(self).groups()[j].usages < i32::MAX,
            r is Ok ==> {
                &&& r->Ok_0.team.id == old(self).next_id()
                &&& r->Ok_0.team.name@ == input.name@
                &&& r->Ok_0.team.region_owner == input.region_id
                &&& final(self).teams() == old(self).teams().push(r->Ok_0.team)
                &&& final(self).groups().len() == old(self).groups().len()
                &&& forall|j: int| 0 <= j < old(self).groups().len() ==> #[trigger] final(self).groups()[j] == if holds_name(input.tags@, old(self).groups()[j].name@) {
                    bumped(old(self).groups()[j])
                } else {
                    old(self).groups()[j]
                }
                &&& final(self).links() == old(self).links() + old(self).groups().filter(tagged_by(input.tags@)).map_values(link_to(old(self).next_id()))
                &&& r->Ok_0.tags@ == final(self).groups().filter(tagged_by(input.tags@))
                &&& final(self).next_id() == old(self).next_id() + 1
                &&& final(self).regions() == old(self).regions()
                &&& final(self).fields() == old(self).fields()
                &&& final(self).slots() == old(self).slots()
            },
            r is Err ==> *final(self) == *old(self),
            r is Err ==> r matches Err(CreateTeamError::ValidationError(_)) || r matches Err(CreateTeamError::MissingTags(_))
                || r matches Err(CreateTeamError::DatabaseError(_)),
    {
        match input.validate() {
            Ok(()) => {},
            Err(e) => {
                return Err(CreateTeamError::ValidationError(e));
            },
        }
        let (resolved, full) = self.resolve_tags(&input.tags);
        let missing = missing_tags(&input.tags, &resolved);
        if missing.len() > 0 {
            proof {
                let t = missing@[0]@;
                assert(holds_name(input.tags@, t) && !holds_name(resolved@, t));
                let i = choose|i: int| 0 <= i < input.tags@.len() && #[trigger] input.tags@[i]@ == t;
                assert(!group_named(self.groups(), input.tags@[i]@));
            }
            return Err(CreateTeamError::MissingTags(missing));
        }
        proof {
            assert forall|i: int| 0 <= i < input.tags@.len() implies group_named(self.groups(), #[trigger] input.tags@[i]@) by {
                if !group_named(self.groups(), input.tags@[i]@) {
                    assert(holds_name(missing@, input.tags@[i]@));
                }
            }
        }
        if full || self.next_id == i32::MAX {
            return Err(CreateTeamError::DatabaseError("a counter or identity is at its largest value".to_string()));
        }
        let team_id = self.next_id;
        let team = Team { id: team_id, name: input.name, region_owner: input.region_id };
        let answer = Team { id: team.id, name: team.name.clone(), region_owner: team.region_owner };
        let ghost pre = *self;
        let ghost tags = input.tags@;
        let ghost old_groups = self.groups@;
        let ghost old_links = self.links@;
        self.teams.push(team);
        self.next_id = self.next_id + 1;
        proof {
            assert(pre.ids_below(self.next_id()));
            assert(link_teams_below(pre.links(), pre.next_id()));
        }
        let mut out: Vec<TeamGroup> = Vec::new();
        let mut j: usize = 0;
        while j < self.groups.len()
            invariant
                self.next_id() == team_id + 1,
                team_id == pre.next_id(),
                pre.wf(),
                tags == input.tags@,
                old_groups == pre.groups(),
                old_links == pre.links(),
                self.regions() == pre.regions(),
                self.fields() == pre.fields(),
                self.slots() == pre.slots(),
                self.teams() == pre.teams().push(answer),
                j <= self.groups@.len(),
                self.groups@.len() == old_groups.len(),
                forall|k: int| 0 <= k < old_groups.len() && holds_name(tags, (#[trigger] old_groups[k]).name@) ==> old_groups[k].usages < i32::MAX,
                forall|k: int| 0 <= k < j ==> #[trigger] self.groups@[k] == if holds_name(tags, old_groups[k].name@) {
                    bumped(old_groups[k])
                } else {
                    old_groups[k]
                },
                forall|k: int| j <= k < old_groups.len() ==> #[trigger] self.groups@[k] == old_groups[k],
                self.links@ == old_links + old_groups.take(j as int).filter(tagged_by(tags)).map_values(link_to(team_id)),
                forall|k: int| 0 <= k < old_groups.len() ==> #[trigger] link_count(self.links@, old_groups[k].id) as int
                    == link_count(old_links, old_groups[k].id) as int + if k < j && holds_name(tags, old_groups[k].name@) { 1int } else { 0int },
                forall|k: int| 0 <= k < self.links@.len() ==> (#[trigger] self.links@[k]).group < self.next_id() && self.links@[k].team < self.next_id(),
                out@ == self.groups@.take(j as int).filter(tagged_by(tags)),
                forall|a: int, b: int| 0 <= a < b < self.links@.len() ==> self.links@[a] != self.links@[b],
                forall|k: int| 0 <= k < old_links.len() ==> (#[trigger] old_links[k]).team < team_id,
                forall|k: int| old_links.len() <= k < self.links@.len() ==> (#[trigger] self.links@[k]).team == team_id
                    && exists|m: int| 0 <= m < j && self.links@[k].group == (#[trigger] old_groups[m]).id,
            decreases old_groups.len() - j,
        {
            let ghost cur = self.groups@;
            let ghost cur_links = self.links@;
            proof {
                reveal_with_fuel(Seq::filter, 1);
                assert(old_groups.take(j + 1).drop_last() =~= old_groups.take(j as int));
            }
            if contains_name(&input.tags, &self.groups[j].name) {
                let g = &self.groups[j];
                let gid = g.id;
                let updated = TeamGroup { id: gid, name: g.name.clone(), usages: g.usages + 1 };
                let copy = TeamGroup { id: gid, name: g.name.clone(), usages: g.usages + 1 };
                self.groups.set(j, updated);
                let link = TeamGroupJoin { team: team_id, group: gid };
                self.links.push(link);
                out.push(copy);
                proof {
                    assert(self.groups@ == cur.update(j as int, bumped(old_groups[j as int])));
                    assert(self.groups@.take(j + 1).drop_last() =~= cur.take(j as int));
                    assert(self.groups@.take(j + 1).last() == bumped(old_groups[j as int]));
                    assert(old_groups.take(j + 1).filter(tagged_by(tags)) == old_groups.take(j as int).filter(tagged_by(tags)).push(old_groups[j as int]));
                    assert(old_groups.take(j + 1).filter(tagged_by(tags)).map_values(link_to(team_id))
                        =~= old_groups.take(j as int).filter(tagged_by(tags)).map_values(link_to(team_id)).push(link));
                    assert(self.links@ =~= old_links + old_groups.take(j + 1).filter(tagged_by(tags)).map_values(link_to(team_id)));
                    assert(self.links@.drop_last() =~= cur_links);
                    assert forall|a: int, b: int| 0 <= a < b < self.links@.len() implies self.links@[a] != self.links@[b] by {
                        if b == cur_links.len() as int {
                            assert(self.links@[a] == cur_links[a]);
                            if a >= old_links.len() {
                                let m = choose|m: int| 0 <= m < j && cur_links[a].group == (#[trigger] old_groups[m]).id;
                                assert(old_groups[m].id != old_groups[j as int].id);
                            }
                        } else {
                            assert(self.links@[a] == cur_links[a]);
                            assert(self.links@[b] == cur_links[b]);
                        }
                    }
                    assert forall|k: int| old_links.len() <= k < self.links@.len() implies (#[trigger] self.links@[k]).team == team_id
                        && exists|m: int| 0 <= m < j + 1 && self.links@[k].group == (#[trigger] old_groups[m]).id by {
                        if k < cur_links.len() {
                            assert(self.links@[k] == cur_links[k]);
                            let m = choose|m: int| 0 <= m < j && cur_links[k].group == (#[trigger] old_groups[m]).id;
                            assert(self.links@[k].group == old_groups[m].id);
                        } else {
                            assert(self.links@[k].group == old_groups[j as int].id);
                        }
                    }
                    assert forall|k: int| 0 <= k < old_groups.len() implies #[trigger] link_count(self.links@, old_groups[k].id) as int
                        == link_count(old_links, old_groups[k].id) as int + if k < j + 1 && holds_name(tags, old_groups[k].name@) { 1int } else { 0int } by {
                        assert(link_count(self.links@, old_groups[k].id) == link_count(cur_links, old_groups[k].id)
                            + if gid == old_groups[k].id { 1nat } else { 0nat });
                        if k != j as int {
                            if k < j {
                                assert(old_groups[k].id != old_groups[j as int].id);
                            } else {
                                assert(old_groups[j as int].id != old_groups[k].id);
                            }
                        }
                    }
                }
            } else {
                proof {
                    assert(self.groups@.take(j + 1).drop_last() =~= self.groups@.take(j as int));
                    assert(old_groups.take(j + 1).filter(tagged_by(tags)) == old_groups.take(j as int).filter(tagged_by(tags)));
                }
            }
            j = j + 1;
        }
        proof {
            assert(old_groups.take(old_groups.len() as int) =~= old_groups);
            assert(self.groups@.take(self.groups@.len() as int) =~= self.groups@);
            assert forall|k: int| 0 <= k < self.groups@.len() implies (#[trigger] self.groups@[k]).usages as int
                == link_count(self.links@, self.groups@[k].id) as int by {
                assert(link_count(self.links@, old_groups[k].id) as int == link_count(old_links, old_groups[k].id) as int
                    + if holds_name(tags, old_groups[k].name@) { 1int } else { 0int });
            }
            assert forall|a: int, b: int| 0 <= a < b < self.groups@.len() implies self.groups@[a].id != self.groups@[b].id by {
                assert(self.groups@[a].id == old_groups[a].id);
                assert(self.groups@[b].id == old_groups[b].id);
            }
            assert forall|a: int, b: int| 0 <= a < self.groups@.len() && 0 <= b < self.groups@.len() && a != b
                implies !names_clash(#[trigger] self.groups@[a].name@, #[trigger] self.groups@[b].name@) by {
                assert(self.groups@[a].name == old_groups[a].name);
                assert(self.groups@[b].name == old_groups[b].name);
            }
            assert(group_ids_below(self.groups(), self.next_id())) by {
                assert forall|i: int| 0 <= i < self.groups().len() implies (#[trigger] self.groups()[i]).id < self.next_id() by {
                    assert(self.groups@[i].id == old_groups[i].id);
                }
            }
            assert forall|a: int, b: int| 0 <= a < b < self.teams().len() implies self.teams()[a].id != self.teams()[b].id by {
                assert(self.teams()[a] == pre.teams()[a]);
                if b < pre.teams().len() {
                    assert(self.teams()[b] == pre.teams()[b]);
                }
            }
            assert(team_ids_below(self.teams(), self.next_id())) by {
                assert forall|i: int| 0 <= i < self.teams().len() implies (#[trigger] self.teams()[i]).id < self.next_id() by {
                    if i < pre.teams().len() {
                        assert(self.teams()[i] == pre.teams()[i]);
                    }
                }
            }
        }
        Ok(TeamExtension { team: answer, tags: out })
    }

    /// Removes every link whose team is in `doomed` and takes each group's
    /// usage count down by the number of its links removed, tallied per group.
    fn detach_teams(&mut self, doomed: &Vec<i32>)
        requires
            old(self).wf(),
        ensures
            final(self).wf(),
            final(self).links() == old(self).links().filter(kept_by(listed(doomed@))),
            final(self).groups().len() == old(self).groups().len(),
            forall|j: int| 0 <= j < old(self).groups().len() ==> #[trigger] final(self).groups()[j] == dropped(
                old(self).groups()[j],
                link_count(old(self).links().filter(cut_by(listed(doomed@))), old(self).groups()[j].id),
            ),
            final(self).next_id() == old(self).next_id(),
            final(self).regions() == old(self).regions(),
            final(self).fields() == old(self).fields(),
            final(self).teams() == old(self).teams(),
            final(self).slots() == old(self).slots(),
    {
        let ghost keep = kept_by(listed(doomed@));
        let ghost cut = cut_by(listed(doomed@));
        let ghost links = self.links@;
        let ghost old_groups = self.groups@;
        let mut kept: Vec<TeamGroupJoin> = Vec::new();
        let mut removed: Vec<i32> = Vec::new();
        let mut i: usize = 0;
        while i < self.links.len()
            invariant
                links == self.links@,
                *self == *old(self),
                keep == kept_by(listed(doomed@)),
                cut == cut_by(listed(doomed@)),
                i <= links.len(),
                kept@ == links.take(i as int).filter(keep),
                forall|g: i32| #[trigger] occurrences(removed@, g) == link_count(links.take(i as int).filter(cut), g),
                forall|g: i32| #[trigger] link_count(links.take(i as int), g) == link_count(kept@, g) + occurrences(removed@, g),
                forall|k: int| 0 <= k < kept@.len() ==> (#[trigger] kept@[k]).group < self.next_id() && kept@[k].team < self.next_id(),
                self.wf(),
                forall|a: int, b: int| 0 <= a < b < kept@.len() ==> kept@[a] != kept@[b],
                forall|k: int| 0 <= k < kept@.len() ==> exists|m: int| 0 <= m < i && #[trigger] kept@[k] == links[m],
            decreases links.len() - i,
        {
            let l = self.links[i];
            let ghost prev_kept = kept@;
            let ghost prev_removed = removed@;
            proof {
                reveal_with_fuel(Seq::filter, 1);
                assert(links.take(i + 1).drop_last() =~= links.take(i as int));
                assert(links.take(i + 1).last() == l);
                assert(link_groups_below(self.links(), self.next_id()));
                assert(link_teams_below(self.links(), self.next_id()));
            }
            if contains_id(doomed, l.team) {
                removed.push(l.group);
                proof {
                    reveal_with_fuel(Seq::filter, 1);
                    assert(removed@.drop_last() =~= prev_removed);
                    assert(cut(l));
                    assert(!keep(l));
                    assert(links.take(i + 1).filter(cut) == links.take(i as int).filter(cut).push(l));
                    assert(links.take(i + 1).filter(keep) == links.take(i as int).filter(keep));
                    assert forall|g: i32| #[trigger] occurrences(removed@, g) == link_count(links.take(i + 1).filter(cut), g) by {
                        assert(links.take(i as int).filter(cut).push(l).drop_last() =~= links.take(i as int).filter(cut));
                        assert(occurrences(prev_removed, g) == link_count(links.take(i as int).filter(cut), g));
                    }
                    assert forall|g: i32| #[trigger] link_count(links.take(i + 1), g) == link_count(kept@, g) + occurrences(removed@, g) by {
                        assert(link_count(links.take(i as int), g) == link_count(prev_kept, g) + occurrences(prev_removed, g));
                    }
                }
            } else {
                kept.push(l);
                proof {
                    reveal_with_fuel(Seq::filter, 1);
                    assert(kept@.drop_last() =~= prev_kept);
                    assert(!cut(l));
                    assert(keep(l));
                    assert(links.take(i + 1).filter(cut) == links.take(i as int).filter(cut));
                    assert(links.take(i + 1).filter(keep) == links.take(i as int).filter(keep).push(l));
                    assert forall|g: i32| #[trigger] occurrences(removed@, g) == link_count(links.take(i + 1).filter(cut), g) by {
                        assert(occurrences(prev_removed, g) == link_count(links.take(i as int).filter(cut), g));
                    }
                    assert forall|g: i32| #[trigger] link_count(links.take(i + 1), g) == link_count(kept@, g) + occurrences(removed@, g) by {
                        assert(link_count(links.take(i as int), g) == link_count(prev_kept, g) + occurrences(prev_removed, g));
                    }
                    assert forall|k: int| 0 <= k < kept@.len() implies exists|m: int| 0 <= m < i + 1 && #[trigger] kept@[k] == links[m] by {
                        if k < prev_kept.len() {
                            assert(kept@[k] == prev_kept[k]);
                            let m = choose|m: int| 0 <= m < i && #[trigger] prev_kept[k] == links[m];
                            assert(kept@[k] == links[m]);
                        } else {
                            assert(kept@[k] == links[i as int]);
                        }
                    }
                    assert forall|a: int, b: int| 0 <= a < b < kept@.len() implies kept@[a] != kept@[b] by {
                        assert(kept@[a] == prev_kept[a]);
                        if b == prev_kept.len() as int {
                            let m = choose|m: int| 0 <= m < i && #[trigger] prev_kept[a] == links[m];
                            assert(links[m] != links[i as int]);
                        } else {
                            assert(kept@[b] == prev_kept[b]);
                        }
                    }
                    assert forall|k: int| 0 <= k < kept@.len() implies (#[trigger] kept@[k]).group < self.next_id() && kept@[k].team < self.next_id() by {
                        if k < prev_kept.len() {
                            assert(kept@[k] == prev_kept[k]);
                        }
                    }
                }
            }
            i = i + 1;
        }
        proof {
            assert(links.take(links.len() as int) =~= links);
        }
        let tally = group_decrements(&removed);
        let mut t: usize = 0;
        while t < tally.len()
            invariant
                t <= tally@.len(),
                links == self.links@,
                links == old(self).links(),
                self.groups@.len() == old_groups.len(),
                old_groups == old(self).groups(),
                old(self).wf(),
                forall|a: int, b: int| 0 <= a < b < tally@.len() ==> tally@[a].0 != tally@[b].0,
                forall|k: int| 0 <= k < tally@.len() ==> (#[trigger] tally@[k]).1 == occurrences(removed@, tally@[k].0),
                forall|g: i32| #[trigger] link_count(links, g) == link_count(kept@, g) + occurrences(removed@, g),
                forall|j: int| 0 <= j < old_groups.len() ==> #[trigger] self.groups@[j] == if keyed(tally@.take(t as int), old_groups[j].id) {
                    dropped(old_groups[j], occurrences(removed@, old_groups[j].id))
                } else {
                    old_groups[j]
                },
                self.regions() == old(self).regions(),
                self.fields() == old(self).fields(),
                self.teams() == old(self).teams(),
                self.slots() == old(self).slots(),
                self.next_id() == old(self).next_id(),
            decreases tally@.len() - t,
        {
            let (gid, n) = tally[t];
            let ghost cur = self.groups@;
            match self.group_position(gid) {
                Some(p) => {
                    proof {
                        if keyed(tally@.take(t as int), gid) {
                            let m = choose|m: int| 0 <= m < tally@.take(t as int).len() && (#[trigger] tally@.take(t as int)[m]).0 == gid;
                            assert(tally@[m].0 == tally@[t as int].0);
                        }
                        assert(self.groups@[p as int] == old_groups[p as int]);
                        assert(old_groups[p as int].usages as int == link_count(links, gid) as int);
                    }
                    let g = &self.groups[p];
                    let updated = TeamGroup { id: g.id, name: g.name.clone(), usages: g.usages - n as i32 };
                    self.groups.set(p, updated);
                    proof {
                        assert forall|j: int| 0 <= j < old_groups.len() implies #[trigger] self.groups@[j] == if keyed(tally@.take(t + 1), old_groups[j].id) {
                            dropped(old_groups[j], occurrences(removed@, old_groups[j].id))
                        } else {
                            old_groups[j]
                        } by {
                            if j == p as int {
                                assert(tally@.take(t + 1)[t as int].0 == gid);
                            } else {
                                if old_groups[j].id == gid {
                                    if j < p { assert(old_groups[j].id != old_groups[p as int].id); }
                                    else { assert(old_groups[p as int].id != old_groups[j].id); }
                                }
                                if keyed(tally@.take(t + 1), old_groups[j].id) {
                                    let m = choose|m: int| 0 <= m < tally@.take(t + 1).len() && (#[trigger] tally@.take(t + 1)[m]).0 == old_groups[j].id;
                                    assert(m < t);
                                    assert(tally@.take(t as int)[m].0 == old_groups[j].id);
                                }
                                if keyed(tally@.take(t as int), old_groups[j].id) {
                                    let m = choose|m: int| 0 <= m < tally@.take(t as int).len() && (#[trigger] tally@.take(t as int)[m]).0 == old_groups[j].id;
                                    assert(tally@.take(t + 1)[m].0 == old_groups[j].id);
                                }
                            }
                        }
                    }
                },
                None => {
                    proof {
                        assert forall|j: int| 0 <= j < old_groups.len() implies #[trigger] self.groups@[j] == if keyed(tally@.take(t + 1), old_groups[j].id) {
                            dropped(old_groups[j], occurrences(removed@, old_groups[j].id))
                        } else {
                            old_groups[j]
                        } by {
                            assert(self.groups()[j].id != gid);
                            assert(self.groups@[j].id == old_groups[j].id);
                            if keyed(tally@.take(t + 1), old_groups[j].id) {
                                let m = choose|m: int| 0 <= m < tally@.take(t + 1).len() && (#[trigger] tally@.take(t + 1)[m]).0 == old_groups[j].id;
                                assert(tally@.take(t as int)[m].0 == old_groups[j].id);
                            }
                            if keyed(tally@.take(t as int), old_groups[j].id) {
                                let m = choose|m: int| 0 <= m < tally@.take(t as int).len() && (#[trigger] tally@.take(t as int)[m]).0 == old_groups[j].id;
                                assert(tally@.take(t + 1)[m].0 == old_groups[j].id);
                            }
                        }
                    }
                },
            }
            t = t + 1;
        }
        self.links = kept;
        proof {
            assert(tally@.take(tally@.len() as int) =~= tally@);
            assert forall|j: int| 0 <= j < old_groups.len() implies #[trigger] self.groups@[j] == dropped(
                old_groups[j], link_count(links.filter(cut), old_groups[j].id)) by {
                let g = old_groups[j].id;
                if occurrences(removed@, g) > 0 {
                    assert(keyed(tally@, g));
                } else if keyed(tally@, g) {
                    let m = choose|m: int| 0 <= m < tally@.len() && (#[trigger] tally@[m]).0 == g;
                }
                assert(old_groups[j] == dropped(old_groups[j], 0));
            }
            assert forall|j: int| 0 <= j < self.groups@.len() implies (#[trigger] self.groups@[j]).usages as int
                == link_count(self.links@, self.groups@[j].id) as int by {
                assert(old_groups[j].usages as int == link_count(links, old_groups[j].id) as int);
            }
            assert forall|a: int, b: int| 0 <= a < b < self.groups@.len() implies self.groups@[a].id != self.groups@[b].id by {
                assert(old_groups[a].id != old_groups[b].id);
            }
            assert forall|a: int, b: int| 0 <= a < self.groups@.len() && 0 <= b < self.groups@.len() && a != b
                implies !names_clash(#[trigger] self.groups@[a].name@, #[trigger] self.groups@[b].name@) by {
                assert(self.groups@[a].name == old_groups[a].name);
                assert(self.groups@[b].name == old_groups[b].name);
            }
            assert(group_ids_below(self.groups(), self.next_id())) by {
                assert forall|i: int| 0 <= i < self.groups().len() implies (#[trigger] self.groups()[i]).id < self.next_id() by {
                    assert(self.groups@[i].id == old_groups[i].id);
                }
            }
        }
    }

    /// Position of the team with identity `id`.
    fn team_position(&self, id: i32) -> (r: Option<usize>)
        ensures
            match r {
                Some(p) => p < self.teams().len() && self.teams()[p as int].id == id,
                None => forall|j: int| 0 <= j < self.teams().len() ==> (#[trigger] self.teams()[j]).id != id,
            },
    {
        let mut i: usize = 0;
        while i < self.teams.len()
            invariant
                i <= self.teams@.len(),
                forall|j: int| 0 <= j < i ==> (#[trigger] self.teams@[j]).id != id,
            decreases self.teams@.len() - i,
        {
            if self.teams[i].id == id {
                return Some(i);
            }
            i = i + 1;
        }
        None
    }

    /// Deletes team `id` and its group links, taking one usage from each group
    /// for every link removed.
    pub fn delete_team(&mut self, id: i32)
        requires
            old(self).wf(),
        ensures
            final(self).wf(),
            final(self).links() == old(self).links().filter(kept_by(is_team(id))),
            final(self).groups().len() == old(self).groups().len(),
            forall|j: int| 0 <= j < old(self).groups().len() ==> #[trigger] final(self).groups()[j] == dropped(
                old(self).groups()[j],
                link_count(old(self).links().filter(cut_by(is_team(id))), old(self).groups()[j].id),
            ),
            (forall|j: int| 0 <= j < old(self).teams().len() ==> (#[trigger] old(self).teams()[j]).id != id)
                ==> final(self).teams() == old(self).teams(),
            forall|p: int| 0 <= p < old(self).teams().len() && (#[trigger] old(self).teams()[p]).id == id
                ==> final(self).teams() == old(self).teams().remove(p),
            final(self).next_id() == old(self).next_id(),
            final(self).regions() == old(self).regions(),
            final(self).fields() == old(self).fields(),
            final(self).slots() == old(self).slots(),
    {
        let doomed: Vec<i32> = vec![id];
        proof {
            assert(doomed@ =~= seq![id]);
            assert(listed(doomed@) =~= is_team(id)) by {
                assert forall|t: i32| #[trigger] listed(doomed@)(t) == is_team(id)(t) by {
                    if t == id {
                        assert(doomed@[0] == t);
                    }
                }
            }
        }
        self.detach_teams(&doomed);
        match self.team_position(id) {
            Some(p) => {
                let ghost before = self.teams@;
                self.teams.remove(p);
                proof {
                    assert forall|q: int| 0 <= q < before.len() && (#[trigger] before[q]).id == id implies q == p as int by {
                        if q < p {
                            assert(before[q].id != before[p as int].id);
                        } else if q > p {
                            assert(before[p as int].id != before[q].id);
                        }
                    }
                    assert forall|a: int, b: int| 0 <= a < b < self.teams@.len() implies self.teams@[a].id != self.teams@[b].id by {
                        let a0 = if a < p { a } else { a + 1 };
                        let b0 = if b < p { b } else { b + 1 };
                        assert(self.teams@[a] == before[a0]);
                        assert(self.teams@[b] == before[b0]);
                    }
                    assert(team_ids_below(self.teams(), self.next_id())) by {
                        assert forall|i: int| 0 <= i < self.teams().len() implies (#[trigger] self.teams()[i]).id < self.next_id() by {
                            let i0 = if i < p { i } else { i + 1 };
                            assert(self.teams@[i] == before[i0]);
                        }
                    }
                }
            },
            None => {},
        }
    }

    /// Position of the region with identity `id`.
    fn region_position(&self, id: i32) -> (r: Option<usize>)
        ensures
            match r {
                Some(p) => p < self.regions().len() && self.regions()[p as int].id == id,
                None => forall|j: int| 0 <= j < self.regions().len() ==> (#[trigger] self.regions()[j]).id != id,
            },
    {
        let mut i: usize = 0;
        while i < self.regions.len()
            invariant
                i <= self.regions@.len(),
                forall|j: int| 0 <= j < i ==> (#[trigger] self.regions@[j]).id != id,
            decreases self.regions@.len() - i,
        {
            if self.regions[i].id == id {
                return Some(i);
            }
            i = i + 1;
        }
        None
    }

    /// Identities of the teams that belong to region `region`.
    fn region_team_ids(&self, region: i32) -> (r: Vec<i32>)
        ensures
            forall|t: i32| r@.contains(t) <==> region_team(self.teams(), region, t),
    {
        let mut out: Vec<i32> = Vec::new();
        let mut i: usize = 0;
        while i < self.teams.len()
            invariant
                i <= self.teams@.len(),
                forall|t: i32| out@.contains(t) <==> exists|k: int| 0 <= k < i && (#[trigger] self.teams@[k]).id == t && self.teams@[k].region_owner == region,
            decreases self.teams@.len() - i,
        {
            let ghost before = out@;
            if self.teams[i].region_owner == region {
                out.push(self.teams[i].id);
                proof {
                    assert forall|t: i32| out@.contains(t) <==> exists|k: int| 0 <= k < i + 1 && (#[trigger] self.teams@[k]).id == t && self.teams@[k].region_owner == region by {
                        if out@.contains(t) {
                            let m = choose|m: int| 0 <= m < out@.len() && out@[m] == t;
                            if m < before.len() {
                                assert(before[m] == t);
                                assert(before.contains(t));
                            } else {
                                assert(self.teams@[i as int].id == t);
                            }
                        }
                        if exists|k: int| 0 <= k < i + 1 && (#[trigger] self.teams@[k]).id == t && self.teams@[k].region_owner == region {
                            let k = choose|k: int| 0 <= k < i + 1 && (#[trigger] self.teams@[k]).id == t && self.teams@[k].region_owner == region;
                            if k < i {
                                assert(before.contains(t));
                                let m = choose|m: int| 0 <= m < before.len() && before[m] == t;
                                assert(out@[m] == t);
                            } else {
                                assert(out@[before.len() as int] == t);
                            }
                        }
                    }
                }
            } else {
                proof {
                    assert forall|t: i32| out@.contains(t) <==> exists|k: int| 0 <= k < i + 1 && (#[trigger] self.teams@[k]).id == t && self.teams@[k].region_owner == region by {
                        if exists|k: int| 0 <= k < i + 1 && (#[trigger] self.teams@[k]).id == t && self.teams@[k].region_owner == region {
                            let k = choose|k: int| 0 <= k < i + 1 && (#[trigger] self.teams@[k]).id == t && self.teams@[k].region_owner == region;
                            assert(k < i);
                        }
                    }
                }
            }
            i = i + 1;
        }
        out
    }

    /// Deletes region `id`: the group links of the region's teams go, each
    /// group losing one usage per link (tallied per group), then the region
    /// row goes. The region's fields and team rows stay.
    pub fn delete_region(&mut self, id: i32)
        requires
            old(self).wf(),
        ensures
            final(self).wf(),
            final(self).links() == old(self).links().filter(kept_by(in_region(old(self).teams(), id))),
            final(self).groups().len() == old(self).groups().len(),
            forall|j: int| 0 <= j < old(self).groups().len() ==> #[trigger] final(self).groups()[j] == dropped(
                old(self).groups()[j],
                link_count(old(self).links().filter(cut_by(in_region(old(self).teams(), id))), old(self).groups()[j].id),
            ),
            (forall|j: int| 0 <= j < old(self).regions().len() ==> (#[trigger] old(self).regions()[j]).id != id)
                ==> final(self).regions() == old(self).regions(),
            forall|p: int| 0 <= p < old(self).regions().len() && (#[trigger] old(self).regions()[p]).id == id
                ==> final(self).regions() == old(self).regions().remove(p),
            final(self).next_id() == old(self).next_id(),
            final(self).teams() == old(self).teams(),
            final(self).fields() == old(self).fields(),
            final(self).slots() == old(self).slots(),
    {
        let doomed = self.region_team_ids(id);
        proof {
            assert(listed(doomed@) =~= in_region(self.teams(), id)) by {
                assert forall|t: i32| #[trigger] listed(doomed@)(t) == in_region(self.teams(), id)(t) by {}
            }
        }
        self.detach_teams(&doomed);
        match self.region_position(id) {
            Some(p) => {
                let ghost before = self.regions@;
                self.regions.remove(p);
                proof {
                    assert forall|q: int| 0 <= q < before.len() && (#[trigger] before[q]).id == id implies q == p as int by {
                        if q < p {
                            assert(before[q].id != before[p as int].id);
                        } else if q > p {
                            assert(before[p as int].id != before[q].id);
                        }
                    }
                    assert forall|a: int, b: int| 0 <= a < b < self.regions@.len() implies self.regions@[a].id != self.regions@[b].id by {
                        let a0 = if a < p { a } else { a + 1 };
                        let b0 = if b < p { b } else { b + 1 };
                        assert(self.regions@[a] == before[a0]);
                        assert(self.regions@[b] == before[b0]);
                    }
                    assert(region_ids_below(self.regions(), self.next_id())) by {
                        assert forall|i: int| 0 <= i < self.regions().len() implies (#[trigger] self.regions()[i]).id < self.next_id() by {
                            let i0 = if i < p { i } else { i + 1 };
                            assert(self.regions@[i] == before[i0]);
                        }
                    }
                }
            },
            None => {},
        }
    }

    /// All regions, in storage order.
    pub fn get_regions(&self) -> (r: Vec<Region>)
        ensures
            r@ == self.regions(),
    {
        let mut out: Vec<Region> = Vec::new();
        let mut i: usize = 0;
        while i < self.regions.len()
            invariant
                i <= self.regions@.len(),
                out@ == self.regions@.take(i as int),
            decreases self.regions@.len() - i,
        {
            out.push(copy_region(&self.regions[i]));
            proof {
                assert(self.regions@.take(i + 1) =~= self.regions@.take(i as int).push(self.regions@[i as int]));
            }
            i = i + 1;
        }
        proof {
            assert(self.regions@.take(self.regions@.len() as int) =~= self.regions@);
        }
        out
    }

    /// The regions with identity `id`: one, or none.
    pub fn load_region(&self, id: i32) -> (r: Vec<Region>)
        requires
            self.wf(),
        ensures
            r@.len() <= 1,
            r@.len() == 1 <==> exists|p: int| 0 <= p < self.regions().len() && (#[trigger] self.regions()[p]).id == id,
            forall|p: int| 0 <= p < self.regions().len() && (#[trigger] self.regions()[p]).id == id ==> r@ == seq![self.regions()[p]],
    {
        let mut out: Vec<Region> = Vec::new();
        match self.region_position(id) {
            Some(p) => {
                out.push(copy_region(&self.regions[p]));
                proof {
                    assert forall|q: int| 0 <= q < self.regions().len() && (#[trigger] self.regions()[q]).id == id implies out@ == seq![self.regions()[q]] by {
                        if q < p {
                            assert(self.regions@[q].id != self.regions@[p as int].id);
                        } else if q > p {
                            assert(self.regions@[p as int].id != self.regions@[q].id);
                        }
                        assert(out@ =~= seq![self.regions()[q]]);
                    }
                }
            },
            None => {},
        }
        out
    }

    /// Removes every region row. Fields, teams and links stay.
    pub fn delete_regions(&mut self) -> (r: usize)
        requires
            old(self).wf(),
        ensures
            final(self).wf(),
            r == old(self).regions().len(),
            final(self).regions().len() == 0,
            final(self).next_id() == old(self).next_id(),
            final(self).fields() == old(self).fields(),
            final(self).teams() == old(self).teams(),
            final(self).groups() == old(self).groups(),
            final(self).links() == old(self).links(),
            final(self).slots() == old(self).slots(),
    {
        let n = self.regions.len();
        self.regions = Vec::new();
        n
    }

    /// The fields with identity `id`: one, or none.
    pub fn get_field(&self, id: i32) -> (r: Vec<Field>)
        ensures
            r@ == self.fields().filter(|f: Field| f.id == id),
    {
        let mut out: Vec<Field> = Vec::new();
        let mut i: usize = 0;
        while i < self.fields.len()
            invariant
                i <= self.fields@.len(),
                out@ == self.fields@.take(i as int).filter(|f: Field| f.id == id),
            decreases self.fields@.len() - i,
        {
            proof {
                reveal_with_fuel(Seq::filter, 1);
                assert(self.fields@.take(i + 1).drop_last() =~= self.fields@.take(i as int));
            }
            if self.fields[i].id == id {
                out.push(copy_field(&self.fields[i]));
            }
            i = i + 1;
        }
        proof {
            assert(self.fields@.take(self.fields@.len() as int) =~= self.fields@);
        }
        out
    }

    /// The fields of region `region_id`, or `None` when no such region exists.
    pub fn get_fields(&self, region_id: i32) -> (r: Option<Vec<Field>>)
        ensures
            r is None <==> forall|p: int| 0 <= p < self.regions().len() ==> (#[trigger] self.regions()[p]).id != region_id,
            r is Some ==> r->0@ == self.fields().filter(field_of(region_id)),
    {
        if self.region_position(region_id).is_none() {
            return None;
        }
        let mut out: Vec<Field> = Vec::new();
        let mut i: usize = 0;
        while i < self.fields.len()
            invariant
                i <= self.fields@.len(),
                out@ == self.fields@.take(i as int).filter(field_of(region_id)),
            decreases self.fields@.len() - i,
        {
            proof {
                reveal_with_fuel(Seq::filter, 1);
                assert(self.fields@.take(i + 1).drop_last() =~= self.fields@.take(i as int));
            }
            if self.fields[i].region_owner == region_id {
                out.push(copy_field(&self.fields[i]));
            }
            i = i + 1;
        }
        proof {
            assert(self.fields@.take(self.fields@.len() as int) =~= self.fields@);
        }
        Some(out)
    }

    /// Position of the field with identity `id`.
    fn field_position(&self, id: i32) -> (r: Option<usize>)
        ensures
            match r {
                Some(p) => p < self.fields().len() && self.fields()[p as int].id == id,
                None => forall|j: int| 0 <= j < self.fields().len() ==> (#[trigger] self.fields()[j]).id != id,
            },
    {
        let mut i: usize = 0;
        while i < self.fields.len()
            invariant
                i <= self.fields@.len(),
                forall|j: int| 0 <= j < i ==> (#[trigger] self.fields@[j]).id != id,
            decreases self.fields@.len() - i,
        {
            if self.fields[i].id == id {
                return Some(i);
            }
            i = i + 1;
        }
        None
    }

    /// Removes the field with identity `id`, if there is one. Its slots stay.
    pub fn delete_field(&mut self, id: i32)
        requires
            old(self).wf(),
        ensures
            final(self).wf(),
            (forall|j: int| 0 <= j < old(self).fields().len() ==> (#[trigger] old(self).fields()[j]).id != id)
                ==> *final(self) == *old(self),
            forall|p: int| 0 <= p < old(self).fields().len() && (#[trigger] old(self).fields()[p]).id == id
                ==> final(self).fields() == old(self).fields().remove(p),
            final(self).next_id() == old(self).next_id(),
            final(self).regions() == old(self).regions(),
            final(self).teams() == old(self).teams(),
            final(self).groups() == old(self).groups(),
            final(self).links() == old(self).links(),
            final(self).slots() == old(self).slots(),
    {
        let found = self.field_position(id);
        if let Some(p) = found {
            let ghost before = self.fields@;
            self.fields.remove(p);
            proof {
                assert forall|q: int| 0 <= q < before.len() && (#[trigger] before[q]).id == id implies q == p as int by {
                    if q < p {
                        assert(before[q].id != before[p as int].id);
                    } else if q > p {
                        assert(before[p as int].id != before[q].id);
                    }
                }
                assert forall|a: int, b: int| 0 <= a < b < self.fields@.len() implies self.fields@[a].id != self.fields@[b].id by {
                    let a0 = if a < p { a } else { a + 1 };
                    let b0 = if b < p { b } else { b + 1 };
                    assert(self.fields@[a] == before[a0]);
                    assert(self.fields@[b] == before[b0]);
                }
                assert(field_ids_below(self.fields(), self.next_id())) by {
                    assert forall|k: int| 0 <= k < self.fields().len() implies (#[trigger] self.fields()[k]).id < self.next_id() by {
                        let k0 = if k < p { k } else { k + 1 };
                        assert(self.fields@[k] == before[k0]);
                    }
                }
            }
        }
    }

    /// The teams of region `region_id`, or `None` when no such region exists.
    pub fn get_teams(&self, region_id: i32) -> (r: Option<Vec<Team>>)
        ensures
            r is None <==> forall|p: int| 0 <= p < self.regions().len() ==> (#[trigger] self.regions()[p]).id != region_id,
            r is Some ==> r->0@ == self.teams().filter(team_of(region_id)),
    {
        if self.region_position(region_id).is_none() {
            return None;
        }
        let mut out: Vec<Team> = Vec::new();
        let mut i: usize = 0;
        while i < self.teams.len()
            invariant
                i <= self.teams@.len(),
                out@ == self.teams@.take(i as int).filter(team_of(region_id)),
            decreases self.teams@.len() - i,
        {
            proof {
                reveal_with_fuel(Seq::filter, 1);
                assert(self.teams@.take(i + 1).drop_last() =~= self.teams@.take(i as int));
            }
            if self.teams[i].region_owner == region_id {
                out.push(copy_team(&self.teams[i]));
            }
            i = i + 1;
        }
        proof {
            assert(self.teams@.take(self.teams@.len() as int) =~= self.teams@);
        }
        Some(out)
    }

    /// Some link joins team `team` to group `group`.
    fn is_linked(&self, team: i32, group: i32) -> (r: bool)
        ensures
            r == linked(self.links(), team, group),
    {
        let mut i: usize = 0;
        while i < self.links.len()
            invariant
                i <= self.links@.len(),
                forall|k: int| 0 <= k < i ==> #[trigger] self.links@[k] != (TeamGroupJoin { team, group }),
            decreases self.links@.len() - i,
        {
            let l = self.links[i];
            if l.team == team && l.group == group {
                assert(self.links()[i as int] == (TeamGroupJoin { team, group }));
                return true;
            }
            i = i + 1;
        }
        false
    }

    /// Team `t` with the groups linked to it, in storage order.
    fn extend(&self, t: &Team) -> (r: TeamExtension)
        ensures
            r.team == *t,
            r.tags@ == self.groups().filter(tags_of(self.links(), t.id)),
    {
        let mut out: Vec<TeamGroup> = Vec::new();
        let mut i: usize = 0;
        while i < self.groups.len()
            invariant
                i <= self.groups@.len(),
                out@ == self.groups@.take(i as int).filter(tags_of(self.links(), t.id)),
            decreases self.groups@.len() - i,
        {
            proof {
                reveal_with_fuel(Seq::filter, 1);
                assert(self.groups@.take(i + 1).drop_last() =~= self.groups@.take(i as int));
            }
            if self.is_linked(t.id, self.groups[i].id) {
                out.push(copy_group(&self.groups[i]));
            }
            i = i + 1;
        }
        proof {
            assert(self.groups@.take(self.groups@.len() as int) =~= self.groups@);
        }
        TeamExtension::new(copy_team(t), out)
    }

    /// The teams of region `region_id`, each with its groups, or `None` when
    /// no such region exists.
    pub fn get_teams_with_tags(&self, region_id: i32) -> (r: Option<Vec<TeamExtension>>)
        ensures
            r is None <==> forall|p: int| 0 <= p < self.regions().len() ==> (#[trigger] self.regions()[p]).id != region_id,
            r is Some ==> r->0@.len() == self.teams().filter(team_of(region_id)).len(),
            r is Some ==> forall|k: int| 0 <= k < r->0@.len() ==> (#[trigger] r->0@[k]).team == self.teams().filter(team_of(region_id))[k]
                && r->0@[k].tags@ == self.groups().filter(tags_of(self.links(), r->0@[k].team.id)),
    {
        match self.get_teams(region_id) {
            None => None,
            Some(teams) => {
                let mut out: Vec<TeamExtension> = Vec::new();
                let mut i: usize = 0;
                while i < teams.len()
                    invariant
                        i <= teams@.len(),
                        out@.len() == i,
                        forall|k: int| 0 <= k < i ==> (#[trigger] out@[k]).team == teams@[k]
                            && out@[k].tags@ == self.groups().filter(tags_of(self.links(), out@[k].team.id)),
                    decreases teams@.len() - i,
                {
                    let e = self.extend(&teams[i]);
                    out.push(e);
                    i = i + 1;
                }
                Some(out)
            },
        }
    }

    /// Every team, each with its groups, in storage order.
    pub fn load_all_teams(&self) -> (r: Vec<TeamExtension>)
        ensures
            r@.len() == self.teams().len(),
            forall|k: int| 0 <= k < r@.len() ==> (#[trigger] r@[k]).team == self.teams()[k]
                && r@[k].tags@ == self.groups().filter(tags_of(self.links(), self.teams()[k].id)),
    {
        let mut out: Vec<TeamExtension> = Vec::new();
        let mut i: usize = 0;
        while i < self.teams.len()
            invariant
                i <= self.teams@.len(),
                out@.len() == i,
                forall|k: int| 0 <= k < i ==> (#[trigger] out@[k]).team == self.teams@[k]
                    && out@[k].tags@ == self.groups().filter(tags_of(self.links(), self.teams@[k].id)),
            decreases self.teams@.len() - i,
        {
            let e = self.extend(&self.teams[i]);
            out.push(e);
            i = i + 1;
        }
        out
    }

    /// The slots, on any field, whose start lies in `[input.start, input.end]`.
    pub fn list_reservations_between(&self, input: ListReservationsBetweenInput) -> (r: Vec<TimeSlot>)
        ensures
            r@ == self.slots().filter(starts_within(input.start, input.end)),
    {
        let mut out: Vec<TimeSlot> = Vec::new();
        let mut i: usize = 0;
        while i < self.time_slots.len()
            invariant
                i <= self.time_slots@.len(),
                out@ == self.time_slots@.take(i as int).filter(starts_within(input.start, input.end)),
            decreases self.time_slots@.len() - i,
        {
            proof {
                reveal_with_fuel(Seq::filter, 1);
                assert(self.time_slots@.take(i + 1).drop_last() =~= self.time_slots@.take(i as int));
            }
            let s = self.time_slots[i];
            if !s.start.is_before(&input.start) && !input.end.is_before(&s.start) {
                out.push(s);
            }
            i = i + 1;
        }
        proof {
            assert(self.time_slots@.take(self.time_slots@.len() as int) =~= self.time_slots@);
        }
        out
    }
}

} // verus!
