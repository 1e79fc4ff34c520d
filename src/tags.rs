//! Group tag rules: case-insensitive name clashes, unresolved tag names, and
//! the per-group tally of team links to take away.

use vstd::prelude::*;

verus! {

/// ASCII lower case of one byte; other bytes stay as they are.
pub open spec fn lower_byte(b: u8) -> u8 {
    if 65 <= b <= 90 { (b + 32) as u8 } else { b }
}

/// The two byte strings are equal once ASCII letters are lower-cased.
pub open spec fn ascii_fold_eq(a: Seq<u8>, b: Seq<u8>) -> bool {
    a.len() == b.len() && forall|i: int| 0 <= i < a.len() ==> lower_byte(#[trigger] a[i]) == lower_byte(b[i])
}

/// The two names clash: equal up to ASCII case, byte by byte, as
/// `str::eq_ignore_ascii_case` compares them.
pub open spec fn names_clash(a: Seq<char>, b: Seq<char>) -> bool {
    ascii_fold_eq(vstd::utf8::encode_utf8(a), vstd::utf8::encode_utf8(b))
}

fn lower(b: u8) -> (r: u8)
    ensures
        r == lower_byte(b),
{
    if 65 <= b && b <= 90 { b + 32 } else { b }
}

pub fn eq_ignore_ascii_case(a: &str, b: &str) -> (r: bool)
    ensures
        r == names_clash(a@, b@),
{
    let x = a.as_bytes();
    let y = b.as_bytes();
    if x.len() != y.len() {
        return false;
    }
    let mut i: usize = 0;
    while i < x.len()
        invariant
            x@ == vstd::utf8::encode_utf8(a@),
            y@ == vstd::utf8::encode_utf8(b@),
            x@.len() == y@.len(),
            i <= x@.len(),
            forall|j: int| 0 <= j < i ==> lower_byte(#[trigger] x@[j]) == lower_byte(y@[j]),
        decreases x@.len() - i,
    {
        if lower(x[i]) != lower(y[i]) {
            return false;
        }
        i = i + 1;
    }
    true
}

/// Some name of `names` clashes with `tag`.
pub open spec fn clashes_with_any(names: Seq<String>, tag: Seq<char>) -> bool {
    exists|i: int| 0 <= i < names.len() && names_clash(#[trigger] names[i]@, tag)
}

/// `tag` may not become a new group: a group name equal to it up to ASCII case exists.
pub fn is_duplicate_tag(names: &Vec<String>, tag: &str) -> (r: bool)
    ensures
        r == clashes_with_any(names@, tag@),
{
    let mut i: usize = 0;
    while i < names.len()
        invariant
            i <= names@.len(),
            forall|j: int| 0 <= j < i ==> !names_clash(#[trigger] names@[j]@, tag@),
        decreases names@.len() - i,
    {
        if eq_ignore_ascii_case(names[i].as_str(), tag) {
            return true;
        }
        i = i + 1;
    }
    false
}

/// `name` is among `names`, as text.
pub open spec fn holds_name(names: Seq<String>, name: Seq<char>) -> bool {
    exists|i: int| 0 <= i < names.len() && #[trigger] names[i]@ == name
}

pub fn contains_name(names: &Vec<String>, name: &String) -> (r: bool)
    ensures
        r == holds_name(names@, name@),
{
    let mut i: usize = 0;
    while i < names.len()
        invariant
            i <= names@.len(),
            forall|j: int| 0 <= j < i ==> #[trigger] names@[j]@ != name@,
        decreases names@.len() - i,
    {
        if names[i] == *name {
            return true;
        }
        i = i + 1;
    }
    false
}

/// The requested names that no resolved name matches, each once.
pub fn missing_tags(requested: &Vec<String>, resolved: &Vec<String>) -> (r: Vec<String>)
    ensures
        forall|i: int| 0 <= i < r@.len() ==> holds_name(requested@, #[trigger] r@[i]@) && !holds_name(resolved@, r@[i]@),
        forall|j: int| 0 <= j < requested@.len() && !holds_name(resolved@, #[trigger] requested@[j]@) ==> holds_name(r@, requested@[j]@),
        forall|a: int, b: int| 0 <= a < b < r@.len() ==> r@[a]@ != r@[b]@,
{
    let mut out: Vec<String> = Vec::new();
    let mut i: usize = 0;
    while i < requested.len()
        invariant
            i <= requested@.len(),
            forall|k: int| 0 <= k < out@.len() ==> holds_name(requested@, #[trigger] out@[k]@) && !holds_name(resolved@, out@[k]@),
            forall|j: int| 0 <= j < i && !holds_name(resolved@, #[trigger] requested@[j]@) ==> holds_name(out@, requested@[j]@),
            forall|a: int, b: int| 0 <= a < b < out@.len() ==> out@[a]@ != out@[b]@,
        decreases requested@.len() - i,
    {
        let name = &requested[i];
        if !contains_name(resolved, name) && !contains_name(&out, name) {
            let ghost before = out@;
            out.push(requested[i].clone());
            proof {
                assert(out@[out@.len() - 1]@ == requested@[i as int]@);
                assert(holds_name(requested@, requested@[i as int]@));
                assert forall|j: int| 0 <= j <= i && !holds_name(resolved@, #[trigger] requested@[j]@) implies holds_name(out@, requested@[j]@) by {
                    if j < i {
                        let k = choose|k: int| 0 <= k < before.len() && #[trigger] before[k]@ == requested@[j]@;
                        assert(out@[k] == before[k]);
                    } else {
                        assert(out@[out@.len() - 1]@ == requested@[j]@);
                    }
                }
            }
        }
        i = i + 1;
    }
    out
}

/// How often `x` occurs in `s`.
pub open spec fn occurrences(s: Seq<i32>, x: i32) -> nat
    decreases s.len(),
{
    if s.len() == 0 {
        0
    } else {
        occurrences(s.drop_last(), x) + if s.last() == x { 1nat } else { 0nat }
    }
}

pub proof fn lemma_occurrences_bounded(s: Seq<i32>, x: i32)
    ensures
        occurrences(s, x) <= s.len(),
    decreases s.len(),
{
    if s.len() > 0 {
        lemma_occurrences_bounded(s.drop_last(), x);
    }
}

/// Index of the first entry of `tally` keyed by `id`, or its length where none is.
fn find_key(tally: &Vec<(i32, usize)>, id: i32) -> (k: usize)
    ensures
        k <= tally@.len(),
        k < tally@.len() ==> tally@[k as int].0 == id,
        forall|m: int| 0 <= m < k ==> (#[trigger] tally@[m]).0 != id,
{
    let mut k: usize = 0;
    while k < tally.len()
        invariant
            k <= tally@.len(),
            forall|m: int| 0 <= m < k ==> (#[trigger] tally@[m]).0 != id,
        decreases tally@.len() - k,
    {
        if tally[k].0 == id {
            return k;
        }
        k = k + 1;
    }
    k
}

/// Tallies `ids`: one entry per distinct id, with the number of times it occurs.
pub fn group_decrements(ids: &Vec<i32>) -> (r: Vec<(i32, usize)>)
    ensures
        forall|a: int, b: int| 0 <= a < b < r@.len() ==> r@[a].0 != r@[b].0,
        forall|k: int| 0 <= k < r@.len() ==> (#[trigger] r@[k]).1 == occurrences(ids@, r@[k].0) && r@[k].1 > 0,
        forall|g: i32| occurrences(ids@, g) > 0 ==> exists|k: int| 0 <= k < r@.len() && (#[trigger] r@[k]).0 == g,
{
    let mut out: Vec<(i32, usize)> = Vec::new();
    let mut i: usize = 0;
    while i < ids.len()
        invariant
            i <= ids@.len(),
            forall|a: int, b: int| 0 <= a < b < out@.len() ==> out@[a].0 != out@[b].0,
            forall|k: int| 0 <= k < out@.len() ==> (#[trigger] out@[k]).1 == occurrences(ids@.take(i as int), out@[k].0) && out@[k].1 > 0,
            forall|g: i32| occurrences(ids@.take(i as int), g) > 0 ==> exists|k: int| 0 <= k < out@.len() && (#[trigger] out@[k]).0 == g,
        decreases ids@.len() - i,
    {
        let id = ids[i];
        let ghost prefix = ids@.take(i as int);
        let ghost next = ids@.take(i + 1);
        proof {
            assert(next.drop_last() =~= prefix);
            assert(next.last() == id);
            lemma_occurrences_bounded(prefix, id);
        }
        let k = find_key(&out, id);
        let ghost before = out@;
        if k < out.len() {
            let n = out[k].1;
            assert(n == occurrences(prefix, id));
            out.set(k, (id, n + 1));
            proof {
                assert(out@ == before.update(k as int, (id, (n + 1) as usize)));
                assert forall|g: i32| true implies occurrences(next, g) == occurrences(prefix, g) + if g == id { 1nat } else { 0nat } by {}
                assert forall|g: i32| occurrences(next, g) > 0 implies exists|m: int| 0 <= m < out@.len() && (#[trigger] out@[m]).0 == g by {
                    if g != id {
                        let m = choose|m: int| 0 <= m < before.len() && (#[trigger] before[m]).0 == g;
                        assert(out@[m] == before[m]);
                    } else {
                        assert(out@[k as int].0 == g);
                    }
                }
            }
        } else {
            proof {
                if occurrences(prefix, id) > 0 {
                    let m = choose|m: int| 0 <= m < before.len() && (#[trigger] before[m]).0 == id;
                    assert(false);
                }
            }
            out.push((id, 1));
            proof {
                assert(out@ == before.push((id, 1usize)));
                assert forall|g: i32| true implies occurrences(next, g) == occurrences(prefix, g) + if g == id { 1nat } else { 0nat } by {}
                assert forall|g: i32| occurrences(next, g) > 0 implies exists|m: int| 0 <= m < out@.len() && (#[trigger] out@[m]).0 == g by {
                    if g != id {
                        let m = choose|m: int| 0 <= m < before.len() && (#[trigger] before[m]).0 == g;
                        assert(out@[m] == before[m]);
                    } else {
                        assert(out@[before.len() as int].0 == g);
                    }
                }
            }
        }
        i = i + 1;
    }
    proof {
        assert(ids@.take(ids@.len() as int) =~= ids@);
    }
    out
}

} // verus!
