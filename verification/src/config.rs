//! Groups: named environments with a base URL and variables.

use crate::fields::StrMap;
use vstd::prelude::*;

verus! {

/// A named environment in which requests are compiled and stored.
#[derive(Debug, Clone)]
pub struct Group {
    pub id: String,
    pub name: String,
    pub base_url: Option<String>,
    pub env: Option<StrMap>,
}

/// The name of the group that always exists.
pub open spec fn default_name() -> Seq<char> {
    "\u{9ed8}\u{8ba4}\u{5206}\u{7ec4}"@
}

/// Whether `g` is the default group: empty id, no base URL, no variables.
pub open spec fn is_default_group(g: Group) -> bool {
    &&& g.id@.len() == 0
    &&& g.name@ == default_name()
    &&& g.base_url is None
    &&& g.env is None
}

/// No two groups of `groups` share an id.
pub open spec fn ids_unique(groups: Seq<Group>) -> bool {
    forall|i: int, j: int|
        0 <= i < j < groups.len() ==> (#[trigger] groups[i]).id@ != (#[trigger] groups[j]).id@
}

/// Some group of `groups` has an empty id.
pub open spec fn has_empty_id(groups: Seq<Group>) -> bool {
    exists|i: int| 0 <= i < groups.len() && (#[trigger] groups[i]).id@.len() == 0
}

/// What is wrong with a list of groups, ids that repeat coming first.
pub open spec fn group_fault(groups: Seq<Group>) -> Option<Seq<char>> {
    if !ids_unique(groups) {
        Some("id\u{4e0d}\u{80fd}\u{91cd}\u{590d}"@)
    } else if has_empty_id(groups) {
        Some("id\u{4e0d}\u{80fd}\u{4e3a}\u{7a7a}"@)
    } else {
        None
    }
}

/// The default group.
pub fn default_group() -> (g: Group)
    ensures
        is_default_group(g),
{
    Group {
        id: String::new(),
        name: "\u{9ed8}\u{8ba4}\u{5206}\u{7ec4}".to_owned(),
        base_url: None,
        env: None,
    }
}

/// The stored groups, if any, followed by the default group.
pub fn get_group_with_default(stored: Option<Vec<Group>>) -> (out: Vec<Group>)
    ensures
        out@.len() > 0,
        is_default_group(out@.last()),
        out@.drop_last() == (match stored {
            Some(v) => v@,
            None => Seq::empty(),
        }),
{
    let mut out = match stored {
        Some(v) => v,
        None => Vec::new(),
    };
    let ghost before = out@;
    out.push(default_group());
    proof {
        assert(out@.drop_last() =~= before);
    }
    out
}

/// The stored group document, or the built-in one when nothing was stored.
pub fn read_group_fallback(stored: Option<String>, built_in: &str) -> (out: String)
    ensures
        out@ == (match stored {
            Some(text) => text@,
            None => built_in@,
        }),
{
    match stored {
        Some(text) => text,
        None => built_in.to_owned(),
    }
}

/// Whether no two groups share an id.
pub fn is_group_id_unique(group: &Vec<Group>) -> (b: bool)
    ensures
        b == ids_unique(group@),
{
    let n = group.len();
    let mut j: usize = 0;
    while j < n
        invariant
            0 <= j <= n,
            n == group@.len(),
            forall|a: int, b: int|
                0 <= a < b < j ==> (#[trigger] group@[a]).id@ != (#[trigger] group@[b]).id@,
        decreases n - j,
    {
        let mut i: usize = 0;
        while i < j
            invariant
                0 <= i <= j < n,
                n == group@.len(),
                forall|a: int| 0 <= a < i ==> (#[trigger] group@[a]).id@ != group@[j as int].id@,
            decreases j - i,
        {
            if group[i].id == group[j].id {
                return false;
            }
            i += 1;
        }
        j += 1;
    }
    true
}

/// Whether some group has an empty id.
fn any_empty_id(group: &Vec<Group>) -> (b: bool)
    ensures
        b == has_empty_id(group@),
{
    let n = group.len();
    let mut i: usize = 0;
    while i < n
        invariant
            0 <= i <= n,
            n == group@.len(),
            forall|a: int| 0 <= a < i ==> (#[trigger] group@[a]).id@.len() != 0,
        decreases n - i,
    {
        if group[i].id.as_str().is_empty() {
            return true;
        }
        i += 1;
    }
    false
}

/// The reason for which a list of groups is refused, if it is.
pub fn check_group(group: &Vec<Group>) -> (out: Option<&'static str>)
    ensures
        match out {
            Some(reason) => group_fault(group@) == Some(reason@),
            None => group_fault(group@) is None,
        },
{
    if !is_group_id_unique(group) {
        Some("id\u{4e0d}\u{80fd}\u{91cd}\u{590d}")
    } else if any_empty_id(group) {
        Some("id\u{4e0d}\u{80fd}\u{4e3a}\u{7a7a}")
    } else {
        None
    }
}

/// The index of the first group at or after `from` whose id is `id`, or the
/// number of groups.
pub open spec fn group_from(groups: Seq<Group>, id: Seq<char>, from: int) -> int
    decreases groups.len() - from,
{
    if from < 0 || from >= groups.len() {
        groups.len() as int
    } else if groups[from].id@ == id {
        from
    } else {
        group_from(groups, id, from + 1)
    }
}

/// The position of the first group whose id is `id`.
pub fn find_group(groups: &Vec<Group>, id: &str) -> (out: Option<usize>)
    ensures
        match out {
            Some(i) => i == group_from(groups@, id@, 0) && i < groups@.len(),
            None => group_from(groups@, id@, 0) == groups@.len(),
        },
{
    let wanted = id.to_owned();
    let n = groups.len();
    let mut i: usize = 0;
    while i < n
        invariant
            0 <= i <= n,
            n == groups@.len(),
            wanted@ == id@,
            group_from(groups@, id@, 0) == group_from(groups@, id@, i as int),
        decreases n - i,
    {
        if groups[i].id == wanted {
            return Some(i);
        }
        i += 1;
    }
    None
}

/// The position of the group that is active when `current` is the id that
/// was chosen last: the group with that id, or the first group when there
/// is no such group or nothing was chosen.
pub open spec fn active_position(groups: Seq<Group>, current: Option<&str>) -> int {
    match current {
        Some(id) => if group_from(groups, id@, 0) < groups.len() {
            group_from(groups, id@, 0)
        } else {
            0
        },
        None => 0,
    }
}

/// The position of the active group.
pub fn active_group(groups: &Vec<Group>, current: Option<&str>) -> (at: usize)
    ensures
        at == active_position(groups@, current),
        groups@.len() > 0 ==> at < groups@.len(),
{
    match current {
        Some(id) => match find_group(groups, id) {
            Some(i) => i,
            None => 0,
        },
        None => 0,
    }
}

} // verus!
