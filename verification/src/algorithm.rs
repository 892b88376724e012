//! Grouping files into candidates for duplicates: first by size, then, within
//! one size, by content signature.

pub use crate::signature::Comparison;
use std::collections::HashMap;
use vstd::prelude::*;
use vstd::std_specs::hash::*;

verus! {

broadcast use vstd::std_specs::hash::group_hash_axioms;

/// The positions at which `key` stands in `keys`, ascending.
pub open spec fn positions(keys: Seq<u64>, key: u64) -> Seq<int>
    decreases keys.len(),
{
    if keys.len() == 0 {
        Seq::empty()
    } else {
        let front = positions(keys.drop_last(), key);
        if keys.last() == key {
            front.push(keys.len() - 1)
        } else {
            front
        }
    }
}

/// The keys that occur in `keys`, each once, in the order in which they
/// first occur.
pub open spec fn distinct(keys: Seq<u64>) -> Seq<u64>
    decreases keys.len(),
{
    if keys.len() == 0 {
        Seq::empty()
    } else {
        let front = distinct(keys.drop_last());
        if front.contains(keys.last()) {
            front
        } else {
            front.push(keys.last())
        }
    }
}

/// For each key of `order` that stands at two or more positions of `keys`,
/// those positions.
pub open spec fn groups_of(keys: Seq<u64>, order: Seq<u64>) -> Seq<Seq<int>>
    decreases order.len(),
{
    if order.len() == 0 {
        Seq::empty()
    } else {
        let front = groups_of(keys, order.drop_last());
        let members = positions(keys, order.last());
        if members.len() >= 2 {
            front.push(members)
        } else {
            front
        }
    }
}

/// The groups of positions that share a key with at least one other
/// position.  A group lists its positions ascending; the groups come in the
/// order in which their keys first occur.
pub open spec fn duplicate_groups(keys: Seq<u64>) -> Seq<Seq<int>> {
    groups_of(keys, distinct(keys))
}

/// The members of a group as numbers.
pub open spec fn members_view(group: Seq<usize>) -> Seq<int> {
    group.map_values(|i: usize| i as int)
}

/// The members of each group of a sequence.
pub open spec fn groups_view(groups: Seq<Vec<usize>>) -> Seq<Seq<int>> {
    groups.map_values(|g: Vec<usize>| members_view(g@))
}

/// Groups the positions of `keys` by key and drops the groups of one.
pub fn group_by_key(keys: &Vec<u64>) -> (groups: Vec<Vec<usize>>)
    ensures
        groups_view(groups@) == duplicate_groups(keys@),
{
    let mut members: HashMap<u64, Vec<usize>> = HashMap::new();
    let mut order: Vec<u64> = Vec::new();
    let mut i: usize = 0;
    while i < keys.len()
        invariant
            i <= keys@.len(),
            order@ == distinct(keys@.take(i as int)),
            forall|k: u64| order@.contains(k) <==> members@.contains_key(k),
            forall|k: u64| #[trigger]
                members@.contains_key(k) ==> members_view(members@[k]@) == positions(
                    keys@.take(i as int),
                    k,
                ),
            forall|k: u64|
                !members@.contains_key(k) ==> #[trigger] positions(keys@.take(i as int), k)
                    == Seq::<int>::empty(),
        decreases keys@.len() - i,
    {
        let key = keys[i];
        let ghost seen = keys@.take(i as int);
        let ghost next = keys@.take(i + 1);
        assert(next.drop_last() =~= seen);
        assert(next.last() == key);
        let ghost before = members@;
        let mut list = match members.remove(&key) {
            Some(list) => list,
            None => {
                order.push(key);
                Vec::new()
            },
        };
        assert(members_view(list@) =~= positions(seen, key));
        list.push(i);
        assert(members_view(list@) =~= positions(next, key));
        members.insert(key, list);
        assert(members@ == before.remove(key).insert(key, list));
        assert forall|k: u64| #[trigger] members@.contains_key(k) implies members_view(
            members@[k]@,
        ) == positions(next, k) by {
            if k != key {
                assert(before.contains_key(k));
                assert(members@[k] == before[k]);
                assert(positions(next, k) == positions(seen, k));
            }
        }
        assert forall|k: u64| !members@.contains_key(k) implies #[trigger] positions(next, k)
            == Seq::<int>::empty() by {
            assert(k != key);
            assert(!before.contains_key(k));
            assert(positions(next, k) == positions(seen, k));
        }
        assert forall|k: u64| order@.contains(k) <==> members@.contains_key(k) by {
            if k != key && distinct(seen).contains(k) {
                let at = choose|at: int| 0 <= at < distinct(seen).len() && distinct(seen)[at] == k;
                assert(order@[at] == k);
            }
            if k == key {
                if distinct(seen).contains(key) {
                } else {
                    assert(order@[order@.len() - 1] == key);
                }
            }
        }
        i += 1;
    }
    assert(keys@.take(keys@.len() as int) =~= keys@);
    proof {
        lemma_distinct_no_duplicates(keys@);
        assert forall|m: int| 0 <= m < order@.len() implies members@.contains_key(
            #[trigger] order@[m],
        ) by {
            assert(order@.contains(order@[m]));
        }
    }
    let mut groups: Vec<Vec<usize>> = Vec::new();
    let mut j: usize = 0;
    while j < order.len()
        invariant
            j <= order@.len(),
            order@ == distinct(keys@),
            order@.no_duplicates(),
            groups_view(groups@) == groups_of(keys@, order@.take(j as int)),
            forall|m: int|
                j <= m < order@.len() ==> members@.contains_key(#[trigger] order@[m])
                    && members_view(members@[order@[m]]@) == positions(keys@, order@[m]),
        decreases order@.len() - j,
    {
        let key = order[j];
        assert(order@.take(j + 1).drop_last() =~= order@.take(j as int));
        assert(order@.take(j + 1).last() == key);
        match members.remove(&key) {
            Some(list) => {
                if list.len() >= 2 {
                    assert(groups_view(groups@.push(list)) =~= groups_view(groups@).push(
                        members_view(list@),
                    ));
                    groups.push(list);
                }
            },
            None => {},
        }
        j += 1;
    }
    assert(order@.take(order@.len() as int) =~= order@);
    groups
}

/// A file and its size in bytes.
pub struct FileEntry {
    pub path: String,
    pub size: u64,
}

/// A file and the signature of its content.
pub struct SignedFile {
    pub path: String,
    pub signature: u32,
}

/// The files of one size, two or more of them.
pub struct SizeBucket {
    pub size: u64,
    pub paths: Vec<String>,
}

/// Files of one size whose contents have one signature, two or more of them.
pub struct DuplicateGroup {
    pub size: u64,
    pub paths: Vec<String>,
}

/// A group of files of one size as a mathematical value.
pub struct GroupView {
    pub size: u64,
    pub paths: Seq<Seq<char>>,
}

impl View for SizeBucket {
    type V = GroupView;

    open spec fn view(&self) -> GroupView {
        GroupView { size: self.size, paths: self.paths@.map_values(|p: String| p@) }
    }
}

impl View for DuplicateGroup {
    type V = GroupView;

    open spec fn view(&self) -> GroupView {
        GroupView { size: self.size, paths: self.paths@.map_values(|p: String| p@) }
    }
}

/// The sizes of a sequence of files.
pub open spec fn sizes_of(entries: Seq<FileEntry>) -> Seq<u64> {
    entries.map_values(|e: FileEntry| e.size)
}

/// The paths of a sequence of files.
pub open spec fn entry_paths(entries: Seq<FileEntry>) -> Seq<Seq<char>> {
    entries.map_values(|e: FileEntry| e.path@)
}

/// The signatures of a sequence of files, as keys.
pub open spec fn signatures_of(files: Seq<SignedFile>) -> Seq<u64> {
    files.map_values(|f: SignedFile| f.signature as u64)
}

/// The paths of a sequence of files with signatures.
pub open spec fn signed_paths(files: Seq<SignedFile>) -> Seq<Seq<char>> {
    files.map_values(|f: SignedFile| f.path@)
}

/// The paths at the positions of a group, in the group's order.
pub open spec fn select(paths: Seq<Seq<char>>, group: Seq<int>) -> Seq<Seq<char>> {
    group.map_values(|i: int| paths[i])
}

/// The buckets of files that share their size with another file: one for
/// each such size, in the order in which the sizes first occur, each with its
/// files in their given order.
pub open spec fn size_buckets(entries: Seq<FileEntry>) -> Seq<GroupView> {
    duplicate_groups(sizes_of(entries)).map_values(
        |g: Seq<int>|
            GroupView {
                size: group_key(sizes_of(entries), g),
                paths: select(entry_paths(entries), g),
            },
    )
}

/// The groups of files of one size that share their signature with another
/// file: one for each such signature, in the order in which the signatures
/// first occur, each with its files in their given order.
pub open spec fn content_groups(size: u64, files: Seq<SignedFile>) -> Seq<GroupView> {
    duplicate_groups(signatures_of(files)).map_values(
        |g: Seq<int>| GroupView { size, paths: select(signed_paths(files), g) },
    )
}

/// The views of a sequence of buckets.
pub open spec fn buckets_view(buckets: Seq<SizeBucket>) -> Seq<GroupView> {
    buckets.map_values(|b: SizeBucket| b@)
}

/// The views of a sequence of groups.
pub open spec fn duplicates_view(groups: Seq<DuplicateGroup>) -> Seq<GroupView> {
    groups.map_values(|g: DuplicateGroup| g@)
}

/// The characters of each of a sequence of borrowed strings.
pub open spec fn names_view(names: Seq<&String>) -> Seq<Seq<char>> {
    names.map_values(|s: &String| s@)
}

fn gather(names: &Vec<&String>, group: &Vec<usize>) -> (paths: Vec<String>)
    requires
        forall|n: int| 0 <= n < group@.len() ==> (#[trigger] group@[n]) < names@.len(),
    ensures
        paths@.map_values(|p: String| p@) == select(
            names_view(names@),
            members_view(group@),
        ),
{
    let mut paths: Vec<String> = Vec::with_capacity(group.len());
    let mut n: usize = 0;
    while n < group.len()
        invariant
            n <= group@.len(),
            paths@.len() == n,
            forall|n: int| 0 <= n < group@.len() ==> (#[trigger] group@[n]) < names@.len(),
            forall|m: int| 0 <= m < n ==> (#[trigger] paths@[m])@ == names@[group@[m] as int]@,
        decreases group@.len() - n,
    {
        let name: &String = names[group[n]];
        paths.push(name.clone());
        n += 1;
    }
    assert(paths@.map_values(|p: String| p@) =~= select(
        names_view(names@),
        members_view(group@),
    ));
    paths
}

/// Stage one: buckets the files by size and drops each file whose size no
/// other file shares.
pub fn group_by_size(entries: &Vec<FileEntry>) -> (buckets: Vec<SizeBucket>)
    ensures
        buckets_view(buckets@) == size_buckets(entries@),
        forall|b: int| 0 <= b < buckets@.len() ==> (#[trigger] buckets@[b]).paths@.len() >= 2,
{
    let mut keys: Vec<u64> = Vec::with_capacity(entries.len());
    let mut names: Vec<&String> = Vec::with_capacity(entries.len());
    let mut i: usize = 0;
    while i < entries.len()
        invariant
            i <= entries@.len(),
            keys@ == sizes_of(entries@).take(i as int),
            names@.len() == i,
            names_view(names@) == entry_paths(entries@).take(i as int),
        decreases entries@.len() - i,
    {
        keys.push(entries[i].size);
        names.push(&entries[i].path);
        assert(keys@ =~= sizes_of(entries@).take(i + 1));
        assert(names@.len() == i + 1);
        assert(names_view(names@) =~= entry_paths(entries@).take(i + 1));
        i += 1;
    }
    assert(keys@ =~= sizes_of(entries@));
    assert(names_view(names@) =~= entry_paths(entries@));
    let groups = group_by_key(&keys);
    let mut buckets: Vec<SizeBucket> = Vec::with_capacity(groups.len());
    let mut g: usize = 0;
    while g < groups.len()
        invariant
            g <= groups@.len(),
            keys@ == sizes_of(entries@),
            names@.len() == keys@.len(),
            names_view(names@) == entry_paths(entries@),
            groups_view(groups@) == duplicate_groups(keys@),
            buckets_view(buckets@) == size_buckets(entries@).take(g as int),
            forall|b: int| 0 <= b < buckets@.len() ==> (#[trigger] buckets@[b]).paths@.len() >= 2,
        decreases groups@.len() - g,
    {
        proof {
            lemma_group_members(keys@, g as int);
            assert(groups_view(groups@)[g as int] == members_view(groups@[g as int]@));
            assert forall|n: int| 0 <= n < groups@[g as int]@.len() implies (
            #[trigger] groups@[g as int]@[n]) < names@.len() by {
                assert(members_view(groups@[g as int]@)[n] == groups@[g as int]@[n]);
            }
            assert(members_view(groups@[g as int]@)[0] == groups@[g as int]@[0]);
        }
        let group = &groups[g];
        let paths = gather(&names, group);
        let bucket = SizeBucket { size: keys[group[0]], paths };
        assert(bucket@ == size_buckets(entries@)[g as int]);
        assert(bucket.paths@.len() == bucket@.paths.len());
        assert(size_buckets(entries@).len() == groups_view(groups@).len());
        assert(buckets_view(buckets@.push(bucket)) =~= buckets_view(buckets@).push(bucket@));
        assert(size_buckets(entries@).take(g + 1) =~= size_buckets(entries@).take(g as int).push(
            size_buckets(entries@)[g as int],
        ));
        buckets.push(bucket);
        g += 1;
    }
    assert(size_buckets(entries@).len() == groups_view(groups@).len());
    assert(size_buckets(entries@).take(groups@.len() as int) =~= size_buckets(entries@));
    buckets
}

/// Stage two, for the files of one size that could be read: groups them by
/// signature and drops each file whose signature no other file shares.
/// Files with one signature are reported together whether or not their
/// contents are equal byte for byte.
pub fn reduce_by_content(size: u64, files: &Vec<SignedFile>) -> (duplicates: Vec<DuplicateGroup>)
    ensures
        duplicates_view(duplicates@) == content_groups(size, files@),
        forall|g: int|
            0 <= g < duplicates@.len() ==> (#[trigger] duplicates@[g]).paths@.len() >= 2
                && duplicates@[g].size == size,
{
    let mut keys: Vec<u64> = Vec::with_capacity(files.len());
    let mut names: Vec<&String> = Vec::with_capacity(files.len());
    let mut i: usize = 0;
    while i < files.len()
        invariant
            i <= files@.len(),
            keys@ == signatures_of(files@).take(i as int),
            names@.len() == i,
            names_view(names@) == signed_paths(files@).take(i as int),
        decreases files@.len() - i,
    {
        keys.push(files[i].signature as u64);
        names.push(&files[i].path);
        assert(keys@ =~= signatures_of(files@).take(i + 1));
        assert(names@.len() == i + 1);
        assert(names_view(names@) =~= signed_paths(files@).take(i + 1));
        i += 1;
    }
    assert(keys@ =~= signatures_of(files@));
    assert(names_view(names@) =~= signed_paths(files@));
    let groups = group_by_key(&keys);
    let mut duplicates: Vec<DuplicateGroup> = Vec::with_capacity(groups.len());
    let mut g: usize = 0;
    while g < groups.len()
        invariant
            g <= groups@.len(),
            keys@ == signatures_of(files@),
            names@.len() == keys@.len(),
            names_view(names@) == signed_paths(files@),
            groups_view(groups@) == duplicate_groups(keys@),
            duplicates_view(duplicates@) == content_groups(size, files@).take(g as int),
            forall|d: int|
                0 <= d < duplicates@.len() ==> (#[trigger] duplicates@[d]).paths@.len() >= 2
                    && duplicates@[d].size == size,
        decreases groups@.len() - g,
    {
        proof {
            lemma_group_members(keys@, g as int);
            assert(groups_view(groups@)[g as int] == members_view(groups@[g as int]@));
            assert forall|n: int| 0 <= n < groups@[g as int]@.len() implies (
            #[trigger] groups@[g as int]@[n]) < names@.len() by {
                assert(members_view(groups@[g as int]@)[n] == groups@[g as int]@[n]);
            }
        }
        let paths = gather(&names, &groups[g]);
        let group = DuplicateGroup { size, paths };
        assert(group@ == content_groups(size, files@)[g as int]);
        assert(group.paths@.len() == group@.paths.len());
        assert(content_groups(size, files@).len() == groups_view(groups@).len());
        assert(duplicates_view(duplicates@.push(group)) =~= duplicates_view(duplicates@).push(
            group@,
        ));
        assert(content_groups(size, files@).take(g + 1) =~= content_groups(size, files@).take(
            g as int,
        ).push(content_groups(size, files@)[g as int]));
        duplicates.push(group);
        g += 1;
    }
    assert(content_groups(size, files@).len() == groups_view(groups@).len());
    assert(content_groups(size, files@).take(groups@.len() as int) =~= content_groups(
        size,
        files@,
    ));
    duplicates
}

/// No key stands twice among the distinct keys.
pub proof fn lemma_distinct_no_duplicates(keys: Seq<u64>)
    ensures
        distinct(keys).no_duplicates(),
    decreases keys.len(),
{
    if keys.len() > 0 {
        lemma_distinct_no_duplicates(keys.drop_last());
    }
}

/// The positions of a key are exactly the places where it stands, in
/// ascending order.
pub proof fn lemma_positions(keys: Seq<u64>, key: u64)
    ensures
        forall|n: int|
            0 <= n < positions(keys, key).len() ==> 0 <= (#[trigger] positions(keys, key)[n])
                < keys.len() && keys[positions(keys, key)[n]] == key,
        forall|n: int, m: int|
            0 <= n < m < positions(keys, key).len() ==> (#[trigger] positions(keys, key)[n]) < (
            #[trigger] positions(keys, key)[m]),
        forall|i: int|
            0 <= i < keys.len() && #[trigger] keys[i] == key ==> positions(keys, key).contains(i),
    decreases keys.len(),
{
    if keys.len() > 0 {
        let front = keys.drop_last();
        let here = positions(keys, key);
        lemma_positions(front, key);
        assert forall|n: int| 0 <= n < here.len() implies 0 <= (#[trigger] here[n]) < keys.len()
            && keys[here[n]] == key by {
            if n < positions(front, key).len() {
                assert(here[n] == positions(front, key)[n]);
                assert(front[here[n]] == keys[here[n]]);
            }
        }
        assert forall|i: int|
            0 <= i < keys.len() && #[trigger] keys[i] == key implies here.contains(i) by {
            if i < front.len() {
                assert(front[i] == key);
                let n = choose|n: int|
                    0 <= n < positions(front, key).len() && positions(front, key)[n] == i;
                assert(here[n] == i);
            } else {
                assert(here[here.len() - 1] == i);
            }
        }
    }
}

/// The distinct keys are the keys that occur.
pub proof fn lemma_distinct_contains(keys: Seq<u64>, key: u64)
    ensures
        distinct(keys).contains(key) <==> keys.contains(key),
    decreases keys.len(),
{
    if keys.len() > 0 {
        let front = keys.drop_last();
        lemma_distinct_contains(front, key);
        if keys.contains(key) {
            let i = choose|i: int| 0 <= i < keys.len() && keys[i] == key;
            if i < front.len() {
                assert(front[i] == key);
                let at = choose|at: int|
                    0 <= at < distinct(front).len() && distinct(front)[at] == key;
                assert(distinct(keys)[at] == key);
            } else if distinct(front).contains(key) {
            } else {
                assert(distinct(keys)[distinct(keys).len() - 1] == key);
            }
        }
        if distinct(keys).contains(key) {
            if distinct(front).contains(key) {
                let i = choose|i: int| 0 <= i < front.len() && front[i] == key;
                assert(keys[i] == key);
            } else {
                assert(keys[keys.len() - 1] == key);
            }
        }
    }
}

/// The key that the members of a group share.
pub open spec fn group_key(keys: Seq<u64>, group: Seq<int>) -> u64 {
    keys[group[0]]
}

proof fn lemma_groups_of(keys: Seq<u64>, order: Seq<u64>)
    requires
        order.no_duplicates(),
    ensures
        forall|g: int|
            0 <= g < groups_of(keys, order).len() ==> {
                let group = #[trigger] groups_of(keys, order)[g];
                &&& group.len() >= 2
                &&& order.contains(group_key(keys, group))
                &&& group == positions(keys, group_key(keys, group))
            },
        forall|g: int, h: int|
            0 <= g < h < groups_of(keys, order).len() ==> group_key(
                keys,
                #[trigger] groups_of(keys, order)[g],
            ) != group_key(keys, #[trigger] groups_of(keys, order)[h]),
        forall|key: u64|
            order.contains(key) && (#[trigger] positions(keys, key)).len() >= 2 ==> groups_of(
                keys,
                order,
            ).contains(positions(keys, key)),
    decreases order.len(),
{
    if order.len() > 0 {
        let front = order.drop_last();
        let last = order.last();
        let groups = groups_of(keys, order);
        let earlier = groups_of(keys, front);
        lemma_groups_of(keys, front);
        lemma_positions(keys, last);
        assert(!front.contains(last)) by {
            if front.contains(last) {
                let at = choose|at: int| 0 <= at < front.len() && front[at] == last;
                assert(order[at] == order[order.len() - 1]);
            }
        }
        assert forall|key: u64| front.contains(key) implies order.contains(key) by {
            let at = choose|at: int| 0 <= at < front.len() && front[at] == key;
            assert(order[at] == key);
        }
        assert(order.contains(last)) by {
            assert(order[order.len() - 1] == last);
        }
        assert forall|g: int| 0 <= g < groups.len() implies {
            let group = #[trigger] groups[g];
            &&& group.len() >= 2
            &&& order.contains(group_key(keys, group))
            &&& group == positions(keys, group_key(keys, group))
        } by {
            if g < earlier.len() {
                assert(groups[g] == earlier[g]);
            } else {
                assert(groups[g] == positions(keys, last));
                assert(group_key(keys, groups[g]) == last);
            }
        }
        assert forall|g: int, h: int| 0 <= g < h < groups.len() implies group_key(
            keys,
            #[trigger] groups[g],
        ) != group_key(keys, #[trigger] groups[h]) by {
            assert(groups[g] == earlier[g]);
            if h < earlier.len() {
                assert(groups[h] == earlier[h]);
            } else {
                assert(groups[h] == positions(keys, last));
                assert(group_key(keys, groups[h]) == last);
                assert(front.contains(group_key(keys, earlier[g])));
            }
        }
        assert forall|key: u64|
            order.contains(key) && (#[trigger] positions(keys, key)).len()
                >= 2 implies groups.contains(positions(keys, key)) by {
            if key == last {
                assert(groups[groups.len() - 1] == positions(keys, key));
            } else {
                let at = choose|at: int| 0 <= at < order.len() && order[at] == key;
                assert(front[at] == key);
                assert(earlier.contains(positions(keys, key)));
                let g = choose|g: int| 0 <= g < earlier.len() && earlier[g] == positions(keys, key);
                assert(groups[g] == positions(keys, key));
            }
        }
    }
}

/// Every group has at least two members, holds positions of `keys` only,
/// and holds all the positions of its key, ascending.
pub proof fn lemma_group_members(keys: Seq<u64>, g: int)
    requires
        0 <= g < duplicate_groups(keys).len(),
    ensures
        ({
            let group = duplicate_groups(keys)[g];
            &&& group.len() >= 2
            &&& group == positions(keys, group_key(keys, group))
            &&& forall|n: int|
                0 <= n < group.len() ==> 0 <= (#[trigger] group[n]) < keys.len() && keys[group[n]]
                    == group_key(keys, group)
            &&& forall|n: int, m: int|
                0 <= n < m < group.len() ==> (#[trigger] group[n]) < (#[trigger] group[m])
        }),
{
    lemma_distinct_no_duplicates(keys);
    lemma_groups_of(keys, distinct(keys));
    let group = duplicate_groups(keys)[g];
    lemma_positions(keys, group_key(keys, group));
}

/// Grouping loses no pair and splits none: two different positions with the
/// same key stand together in one group, and in no other group does either
/// of them stand.
pub proof fn lemma_pair_grouped_once(keys: Seq<u64>, i: int, j: int)
    requires
        0 <= i < keys.len(),
        0 <= j < keys.len(),
        i != j,
        keys[i] == keys[j],
    ensures
        exists|g: int|
            {
                &&& 0 <= g < duplicate_groups(keys).len()
                &&& (#[trigger] duplicate_groups(keys)[g]).contains(i)
                &&& duplicate_groups(keys)[g].contains(j)
                &&& forall|h: int|
                    0 <= h < duplicate_groups(keys).len() && h != g ==> !(
                    #[trigger] duplicate_groups(keys)[h]).contains(i) && !duplicate_groups(
                        keys,
                    )[h].contains(j)
            },
{
    let key = keys[i];
    let groups = duplicate_groups(keys);
    let members = positions(keys, key);
    lemma_distinct_no_duplicates(keys);
    lemma_groups_of(keys, distinct(keys));
    lemma_positions(keys, key);
    lemma_distinct_contains(keys, key);
    assert(keys.contains(key));
    assert(members.contains(i) && members.contains(j));
    assert(members.len() >= 2) by {
        let n = choose|n: int| 0 <= n < members.len() && members[n] == i;
        let m = choose|m: int| 0 <= m < members.len() && members[m] == j;
        assert(n != m);
    }
    assert(groups.contains(members));
    let g = choose|g: int| 0 <= g < groups.len() && groups[g] == members;
    assert(group_key(keys, groups[g]) == key);
    assert forall|h: int| 0 <= h < groups.len() && h != g implies !(#[trigger] groups[h]).contains(
        i,
    ) && !groups[h].contains(j) by {
        lemma_positions(keys, group_key(keys, groups[h]));
        if groups[h].contains(i) || groups[h].contains(j) {
            assert(group_key(keys, groups[h]) == key);
            if h < g {
                assert(group_key(keys, groups[h]) != group_key(keys, groups[g]));
            } else {
                assert(group_key(keys, groups[g]) != group_key(keys, groups[h]));
            }
        }
    }
}

/// No position stands in two groups.
pub proof fn lemma_groups_disjoint(keys: Seq<u64>, g: int, h: int, i: int)
    requires
        0 <= g < duplicate_groups(keys).len(),
        0 <= h < duplicate_groups(keys).len(),
        duplicate_groups(keys)[g].contains(i),
        duplicate_groups(keys)[h].contains(i),
    ensures
        g == h,
{
    let groups = duplicate_groups(keys);
    lemma_distinct_no_duplicates(keys);
    lemma_groups_of(keys, distinct(keys));
    lemma_group_members(keys, g);
    lemma_group_members(keys, h);
    let n = choose|n: int| 0 <= n < groups[g].len() && groups[g][n] == i;
    let m = choose|m: int| 0 <= m < groups[h].len() && groups[h][m] == i;
    assert(group_key(keys, groups[g]) == keys[i]);
    assert(group_key(keys, groups[h]) == keys[i]);
    if g < h {
        assert(group_key(keys, groups[g]) != group_key(keys, groups[h]));
    } else if h < g {
        assert(group_key(keys, groups[h]) != group_key(keys, groups[g]));
    }
}

/// A position whose key no other position shares stands in no group.
pub proof fn lemma_single_not_grouped(keys: Seq<u64>, i: int, g: int)
    requires
        0 <= i < keys.len(),
        forall|j: int| 0 <= j < keys.len() && j != i ==> keys[j] != keys[i],
        0 <= g < duplicate_groups(keys).len(),
    ensures
        !duplicate_groups(keys)[g].contains(i),
{
    let group = duplicate_groups(keys)[g];
    lemma_group_members(keys, g);
    if group.contains(i) {
        let n = choose|n: int| 0 <= n < group.len() && group[n] == i;
        let m = if n == 0 {
            1
        } else {
            0
        };
        assert(group[m] != group[n]);
        assert(keys[group[m]] == keys[i]);
    }
}

} // verus!
