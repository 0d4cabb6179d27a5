//! Rows grouped by the asset that they belong to.

use crate::decimal::texts;
use vstd::prelude::*;

verus! {

/// The rows of one asset.
pub struct Group {
    pub name: String,
    /// The places of its rows, in rising order.
    pub members: Vec<usize>,
}

/// The places below `n` that carry `name`, in rising order.
pub open spec fn members_below(names: Seq<Seq<char>>, name: Seq<char>, n: nat) -> Seq<usize>
    decreases n,
{
    if n == 0 {
        Seq::empty()
    } else {
        let before = members_below(names, name, (n - 1) as nat);
        if names[n - 1] == name {
            before.push((n - 1) as usize)
        } else {
            before
        }
    }
}

/// The places that carry `name`, in rising order.
pub open spec fn members_of(names: Seq<Seq<char>>, name: Seq<char>) -> Seq<usize> {
    members_below(names, name, names.len())
}

/// The distinct names among the first `n`, in the order in which they first occur.
pub open spec fn distinct_below(names: Seq<Seq<char>>, n: nat) -> Seq<Seq<char>>
    decreases n,
{
    if n == 0 {
        Seq::empty()
    } else {
        let before = distinct_below(names, (n - 1) as nat);
        if before.contains(names[n - 1]) {
            before
        } else {
            before.push(names[n - 1])
        }
    }
}

/// The distinct names, in the order in which they first occur.
pub open spec fn distinct(names: Seq<Seq<char>>) -> Seq<Seq<char>> {
    distinct_below(names, names.len())
}

/// One group for each distinct name, in the order in which the names first occur, with all its
/// places.
pub open spec fn groups_below(groups: Seq<Group>, names: Seq<Seq<char>>, n: nat) -> bool {
    &&& groups.len() == distinct_below(names, n).len()
    &&& forall|g: int|
        0 <= g < groups.len() ==> {
            &&& (#[trigger] groups[g]).name@ == distinct_below(names, n)[g]
            &&& groups[g].members@ == members_below(names, groups[g].name@, n)
        }
}

proof fn lemma_distinct_below(names: Seq<Seq<char>>, n: nat)
    requires
        n <= names.len(),
    ensures
        distinct_below(names, n).no_duplicates(),
        distinct_below(names, n).len() <= n,
        forall|i: int| 0 <= i < n ==> distinct_below(names, n).contains(#[trigger] names[i]),
    decreases n,
{
    if n > 0 {
        lemma_distinct_below(names, (n - 1) as nat);
        let before = distinct_below(names, (n - 1) as nat);
        let now = distinct_below(names, n);
        assert forall|i: int| 0 <= i < n implies now.contains(#[trigger] names[i]) by {
            if i < n - 1 {
                assert(before.contains(names[i]));
            }
            if !before.contains(names[n - 1]) {
                assert(now[before.len() as int] == names[n - 1]);
                if before.contains(names[i]) {
                    let k = choose|k: int| 0 <= k < before.len() && before[k] == names[i];
                    assert(now[k] == names[i]);
                }
            }
        }
    }
}

proof fn lemma_no_members(names: Seq<Seq<char>>, name: Seq<char>, n: nat)
    requires
        n <= names.len(),
        forall|i: int| 0 <= i < n ==> #[trigger] names[i] != name,
    ensures
        members_below(names, name, n) == Seq::<usize>::empty(),
    decreases n,
{
    if n > 0 {
        lemma_no_members(names, name, (n - 1) as nat);
    }
}

/// A place is a member of its own name's group and of no other.
pub proof fn members_are_the_rows_of_a_name(names: Seq<Seq<char>>, name: Seq<char>, i: usize)
    requires
        names.len() <= usize::MAX,
    ensures
        members_of(names, name).contains(i) <==> i < names.len() && names[i as int] == name,
{
    lemma_members_below(names, name, names.len(), i);
}

proof fn lemma_members_below(names: Seq<Seq<char>>, name: Seq<char>, n: nat, i: usize)
    requires
        n <= names.len(),
        names.len() <= usize::MAX,
    ensures
        members_below(names, name, n).contains(i) <==> i < n && names[i as int] == name,
    decreases n,
{
    if n > 0 {
        let before = members_below(names, name, (n - 1) as nat);
        lemma_members_below(names, name, (n - 1) as nat, i);
        if names[n - 1] == name {
            let now = before.push((n - 1) as usize);
            assert(now[before.len() as int] == n - 1);
            if before.contains(i) {
                let k = choose|k: int| 0 <= k < before.len() && before[k] == i;
                assert(now[k] == i);
            }
        }
    }
}

/// Every row belongs to exactly one group, and no two groups share a name.
pub proof fn distinct_names_cover_the_rows(names: Seq<Seq<char>>)
    ensures
        distinct(names).no_duplicates(),
        forall|i: int| 0 <= i < names.len() ==> distinct(names).contains(#[trigger] names[i]),
{
    lemma_distinct_below(names, names.len());
}

/// The place of the group of `name`.
fn find_group(groups: &Vec<Group>, name: &String) -> (r: Option<usize>)
    ensures
        match r {
            Some(g) => g < groups@.len() && groups@[g as int].name@ == name@,
            None => forall|g: int| 0 <= g < groups@.len() ==> (#[trigger] groups@[g]).name@ != name@,
        },
{
    let n: usize = groups.len();
    let mut g: usize = 0;
    while g < n
        invariant
            n == groups@.len(),
            g <= n,
            forall|k: int| 0 <= k < g ==> (#[trigger] groups@[k]).name@ != name@,
        decreases n - g,
    {
        if groups[g].name == *name {
            return Some(g);
        }
        g = g + 1;
    }
    None
}

/// The rows grouped by their names.
pub fn group_by_name(names: &Vec<String>) -> (groups: Vec<Group>)
    ensures
        groups_below(groups@, texts(names@), names@.len()),
{
    let n: usize = names.len();
    let mut groups: Vec<Group> = Vec::new();
    let mut i: usize = 0;
    while i < n
        invariant
            n == names@.len(),
            i <= n,
            groups_below(groups@, texts(names@), i as nat),
        decreases n - i,
    {
        let ghost before = groups@;
        proof {
            lemma_distinct_below(texts(names@), i as nat);
        }
        let ghost seen = distinct_below(texts(names@), i as nat);
        match find_group(&groups, &names[i]) {
            Some(g) => {
                assert(seen[g as int] == names@[i as int]@);
                groups[g].members.push(i);
                assert forall|k: int| 0 <= k < groups@.len() implies {
                    &&& (#[trigger] groups@[k]).name@ == distinct_below(texts(names@), (i + 1) as nat)[k]
                    &&& groups@[k].members@ == members_below(
                        texts(names@),
                        groups@[k].name@,
                        (i + 1) as nat,
                    )
                } by {
                    assert(before[k].name@ == seen[k]);
                    if k != g {
                        assert(groups@[k] == before[k]);
                        assert(seen[k] != seen[g as int]);
                    }
                }
            },
            None => {
                let mut members: Vec<usize> = Vec::new();
                members.push(i);
                groups.push(Group { name: names[i].clone(), members });
                proof {
                    if seen.contains(names@[i as int]@) {
                        let k = choose|k: int| 0 <= k < seen.len() && seen[k] == names@[i as int]@;
                        assert(before[k].name@ == seen[k]);
                    }
                    assert forall|k: int| 0 <= k < i implies #[trigger] texts(names@)[k]
                        != names@[i as int]@ by {
                        assert(seen.contains(texts(names@)[k]));
                    }
                    lemma_no_members(texts(names@), names@[i as int]@, i as nat);
                }
                assert forall|k: int| 0 <= k < groups@.len() implies {
                    &&& (#[trigger] groups@[k]).name@ == distinct_below(texts(names@), (i + 1) as nat)[k]
                    &&& groups@[k].members@ == members_below(
                        texts(names@),
                        groups@[k].name@,
                        (i + 1) as nat,
                    )
                } by {
                    if k < before.len() {
                        assert(groups@[k] == before[k]);
                        assert(before[k].name@ == seen[k]);
                        assert(seen.contains(seen[k]));
                    } else {
                        assert(groups@[k].members@ =~= Seq::<usize>::empty().push(i));
                    }
                }
            },
        }
        i = i + 1;
    }
    groups
}

/// How many rows carry `name`.
pub fn count_of(names: &Vec<String>, name: &String) -> (r: usize)
    ensures
        r == members_of(texts(names@), name@).len(),
{
    let n: usize = names.len();
    let mut count: usize = 0;
    let mut i: usize = 0;
    while i < n
        invariant
            n == names@.len(),
            count <= i <= n,
            count == members_below(texts(names@), name@, i as nat).len(),
        decreases n - i,
    {
        if names[i] == *name {
            count = count + 1;
        }
        i = i + 1;
    }
    count
}

/// Whether a name is among others.
pub open spec fn listed(names: Seq<String>, name: Seq<char>) -> bool {
    exists|i: int| 0 <= i < names.len() && (#[trigger] names[i])@ == name
}

/// Whether a name is among others.
pub fn is_listed(names: &Vec<String>, name: &String) -> (r: bool)
    ensures
        r == listed(names@, name@),
{
    let n: usize = names.len();
    let mut i: usize = 0;
    while i < n
        invariant
            n == names@.len(),
            i <= n,
            forall|k: int| 0 <= k < i ==> (#[trigger] names@[k])@ != name@,
        decreases n - i,
    {
        if names[i] == *name {
            assert(names@[i as int]@ == name@);
            return true;
        }
        i = i + 1;
    }
    false
}

} // verus!
