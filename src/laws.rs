//! Properties of the store that span several operations.

use crate::conflict::overlaps;
use crate::store::{
    bumped, collides, cut_by, dropped, is_team, kept_by, link_count, link_teams_below, link_to,
    linked, tagged_by, Client, TeamGroup, TeamGroupJoin,
};
use crate::tags::holds_name;
use vstd::prelude::*;

verus! {

/// No two live slots on one field overlap, whatever sequence of creates,
/// moves and deletes led to the store.
pub proof fn lemma_live_slots_never_overlap(c: &Client)
    requires
        c.wf(),
    ensures
        forall|a: int, b: int|
            0 <= a < c.slots().len() && 0 <= b < c.slots().len() && a != b && c.slots()[a].field_id == c.slots()[b].field_id
                ==> !overlaps(#[trigger] c.slots()[a].start, c.slots()[a].end, #[trigger] c.slots()[b].start, c.slots()[b].end),
{
}

/// A slot moved onto its own interval meets no conflict: the check leaves
/// the slot itself out.
pub proof fn lemma_move_onto_itself_is_clear(c: &Client, p: int)
    requires
        c.wf(),
        0 <= p < c.slots().len(),
    ensures
        forall|j: int| 0 <= j < c.slots().len() ==> !collides(
            #[trigger] c.slots()[j],
            c.slots()[p].field_id,
            c.slots()[p].start,
            c.slots()[p].end,
            Some(c.slots()[p].id),
        ),
{
    assert forall|j: int| 0 <= j < c.slots().len() implies !collides(
        #[trigger] c.slots()[j],
        c.slots()[p].field_id,
        c.slots()[p].start,
        c.slots()[p].end,
        Some(c.slots()[p].id),
    ) by {
        if j != p && c.slots()[j].field_id == c.slots()[p].field_id {
            assert(!overlaps(c.slots()[j].start, c.slots()[j].end, c.slots()[p].start, c.slots()[p].end));
        }
    }
}

/// A filter that rejects every element leaves nothing.
proof fn lemma_filter_none<A>(s: Seq<A>, p: spec_fn(A) -> bool)
    requires
        forall|k: int| 0 <= k < s.len() ==> !p(#[trigger] s[k]),
    ensures
        s.filter(p) == Seq::<A>::empty(),
    decreases s.len(),
{
    reveal_with_fuel(Seq::filter, 1);
    if s.len() > 0 {
        lemma_filter_none(s.drop_last(), p);
    }
}

/// A filter that accepts every element leaves the sequence as it is.
proof fn lemma_filter_all<A>(s: Seq<A>, p: spec_fn(A) -> bool)
    requires
        forall|k: int| 0 <= k < s.len() ==> p(#[trigger] s[k]),
    ensures
        s.filter(p) == s,
    decreases s.len(),
{
    reveal_with_fuel(Seq::filter, 1);
    if s.len() > 0 {
        lemma_filter_all(s.drop_last(), p);
        assert(s.drop_last().push(s.last()) =~= s);
    }
}

/// Links made for the tagged groups of `groups`, which carry distinct
/// identities, reference each tagged group once and no other group.
proof fn lemma_new_links_count(groups: Seq<TeamGroup>, tags: Seq<String>, team: i32, g: i32)
    requires
        forall|a: int, b: int| 0 <= a < b < groups.len() ==> groups[a].id != groups[b].id,
    ensures
        link_count(groups.filter(tagged_by(tags)).map_values(link_to(team)), g) == if exists|k: int|
            0 <= k < groups.len() && (#[trigger] groups[k]).id == g && holds_name(tags, groups[k].name@) {
            1nat
        } else {
            0nat
        },
    decreases groups.len(),
{
    reveal_with_fuel(Seq::filter, 1);
    if groups.len() > 0 {
        let rest = groups.drop_last();
        let last = groups.last();
        lemma_new_links_count(rest, tags, team, g);
        let made = rest.filter(tagged_by(tags)).map_values(link_to(team));
        if holds_name(tags, last.name@) {
            assert(groups.filter(tagged_by(tags)).map_values(link_to(team)) =~= made.push(link_to(team)(last)));
            assert(made.push(link_to(team)(last)).drop_last() =~= made);
        } else {
            assert(groups.filter(tagged_by(tags)).map_values(link_to(team)) =~= made);
        }
        if exists|k: int| 0 <= k < rest.len() && (#[trigger] rest[k]).id == g && holds_name(tags, rest[k].name@) {
            let k = choose|k: int| 0 <= k < rest.len() && (#[trigger] rest[k]).id == g && holds_name(tags, rest[k].name@);
            assert(groups[k] == rest[k]);
            assert(groups[k].id != groups[groups.len() - 1].id);
        }
        if exists|k: int| 0 <= k < groups.len() && (#[trigger] groups[k]).id == g && holds_name(tags, groups[k].name@) {
            let k = choose|k: int| 0 <= k < groups.len() && (#[trigger] groups[k]).id == g && holds_name(tags, groups[k].name@);
            if k < groups.len() - 1 {
                assert(rest[k] == groups[k]);
            }
        }
    }
}

/// Creating a team tagged with `tags` and then deleting that team leaves
/// every group's usage count, and the links, as they were.
pub proof fn lemma_usage_round_trip(c0: &Client, c1: &Client, c2: &Client, tags: Seq<String>)
    requires
        c0.wf(),
        // `c1` is `c0` after a successful `create_team` tagged with `tags`.
        forall|j: int| 0 <= j < c0.groups().len() && holds_name(tags, (#[trigger] c0.groups()[j]).name@)
            ==> c0.groups()[j].usages < i32::MAX,
        c1.groups().len() == c0.groups().len(),
        forall|j: int| 0 <= j < c0.groups().len() ==> #[trigger] c1.groups()[j] == if holds_name(tags, c0.groups()[j].name@) {
            bumped(c0.groups()[j])
        } else {
            c0.groups()[j]
        },
        c1.links() == c0.links() + c0.groups().filter(tagged_by(tags)).map_values(link_to(c0.next_id())),
        // `c2` is `c1` after `delete_team` of that team.
        c2.groups().len() == c1.groups().len(),
        forall|j: int| 0 <= j < c1.groups().len() ==> #[trigger] c2.groups()[j] == dropped(
            c1.groups()[j],
            link_count(c1.links().filter(cut_by(is_team(c0.next_id()))), c1.groups()[j].id),
        ),
        c2.links() == c1.links().filter(kept_by(is_team(c0.next_id()))),
    ensures
        c2.groups() == c0.groups(),
        c2.links() == c0.links(),
{
    let t = c0.next_id();
    let old_links = c0.links();
    let made = c0.groups().filter(tagged_by(tags)).map_values(link_to(t));
    assert(link_teams_below(old_links, t));
    lemma_filter_none(old_links, cut_by(is_team(t)));
    lemma_filter_all(old_links, kept_by(is_team(t)));
    assert forall|k: int| 0 <= k < made.len() implies (#[trigger] made[k]).team == t by {}
    lemma_filter_all(made, cut_by(is_team(t)));
    lemma_filter_none(made, kept_by(is_team(t)));
    Seq::filter_distributes_over_add(old_links, made, cut_by(is_team(t)));
    Seq::filter_distributes_over_add(old_links, made, kept_by(is_team(t)));
    assert(c1.links().filter(cut_by(is_team(t))) =~= made);
    assert(c2.links() =~= old_links);
    assert forall|j: int| 0 <= j < c0.groups().len() implies #[trigger] c2.groups()[j] == c0.groups()[j] by {
        let g = c0.groups()[j];
        lemma_new_links_count(c0.groups(), tags, t, g.id);
        if holds_name(tags, g.name@) {
            assert(exists|k: int| 0 <= k < c0.groups().len() && (#[trigger] c0.groups()[k]).id == g.id && holds_name(tags, c0.groups()[k].name@));
        } else if exists|k: int| 0 <= k < c0.groups().len() && (#[trigger] c0.groups()[k]).id == g.id && holds_name(tags, c0.groups()[k].name@) {
            let k = choose|k: int| 0 <= k < c0.groups().len() && (#[trigger] c0.groups()[k]).id == g.id && holds_name(tags, c0.groups()[k].name@);
            if k < j {
                assert(c0.groups()[k].id != c0.groups()[j].id);
            } else if k > j {
                assert(c0.groups()[j].id != c0.groups()[k].id);
            }
        }
    }
    assert(c2.groups() =~= c0.groups());
}

/// In a sequence of distinct links, those of team `team` reference group
/// `group` once if the pair is linked, and not at all otherwise.
proof fn lemma_team_links_once(links: Seq<TeamGroupJoin>, team: i32, group: i32)
    requires
        forall|a: int, b: int| 0 <= a < b < links.len() ==> links[a] != links[b],
    ensures
        link_count(links.filter(cut_by(is_team(team))), group) == if linked(links, team, group) { 1nat } else { 0nat },
    decreases links.len(),
{
    reveal_with_fuel(Seq::filter, 1);
    if links.len() > 0 {
        let rest = links.drop_last();
        let last = links.last();
        let kept = rest.filter(cut_by(is_team(team)));
        lemma_team_links_once(rest, team, group);
        if last.team == team {
            assert(links.filter(cut_by(is_team(team))) == kept.push(last));
            assert(kept.push(last).drop_last() =~= kept);
        }
        let pair = TeamGroupJoin { team, group };
        if linked(rest, team, group) {
            let k = choose|k: int| 0 <= k < rest.len() && #[trigger] rest[k] == pair;
            assert(links[k] == pair);
            if last == pair {
                assert(links[k] != links[links.len() - 1]);
            }
        }
        if linked(links, team, group) && last != pair {
            let k = choose|k: int| 0 <= k < links.len() && #[trigger] links[k] == pair;
            assert(rest[k] == pair);
        }
        if last == pair {
            assert(links[links.len() - 1] == pair);
        }
    }
}

/// Deleting a team takes exactly one usage from each group it is linked to,
/// and none from the others.
pub proof fn lemma_delete_team_takes_one_per_link(c: &Client, team: i32, group: i32)
    requires
        c.wf(),
    ensures
        link_count(c.links().filter(cut_by(is_team(team))), group) == if linked(c.links(), team, group) { 1nat } else { 0nat },
{
    lemma_team_links_once(c.links(), team, group);
}

} // verus!
