//! The index from record identifier to record, and the paths read off it.

use crate::ntfs::{UsnRecord, UsnRecordType};
use std::collections::{HashMap, HashSet};
use vstd::prelude::*;
use vstd::string::StringExecFns;
use vstd::std_specs::hash::*;
use vstd::std_specs::iter::IteratorSpec;

verus! {

broadcast use vstd::std_specs::hash::group_hash_axioms;

/// The index that a run of records builds: each record under its own
/// identifier, a later record replacing an earlier one with the same
/// identifier.
pub open spec fn index_of(records: Seq<UsnRecord>) -> Map<u64, UsnRecord>
    decreases records.len(),
{
    if records.len() == 0 {
        Map::empty()
    } else {
        index_of(records.drop_last()).insert(records.last().id, records.last())
    }
}

/// Collects records into an index by identifier.
pub fn usn_records_to_hash_map(records: Vec<UsnRecord>) -> (map: HashMap<u64, UsnRecord>)
    ensures
        map@ == index_of(records@),
{
    let mut map: HashMap<u64, UsnRecord> = HashMap::new();
    for record in it: records
        invariant
            it.seq() == records@,
            map@ == index_of(records@.take(it.index())),
    {
        assert(records@.take(it.index() + 1).drop_last() =~= records@.take(it.index()));
        map.insert(record.id, record);
    }
    assert(records@.take(records@.len() as int) =~= records@);
    map
}

/// The index holds an identifier exactly if some record has it.
pub proof fn lemma_index_keys(records: Seq<UsnRecord>, id: u64)
    ensures
        index_of(records).contains_key(id) <==> exists|i: int|
            0 <= i < records.len() && (#[trigger] records[i]).id == id,
    decreases records.len(),
{
    if records.len() > 0 {
        let front = records.drop_last();
        lemma_index_keys(front, id);
        if records.last().id == id {
            assert(records[records.len() - 1].id == id);
        } else if index_of(front).contains_key(id) {
            let i = choose|i: int| 0 <= i < front.len() && (#[trigger] front[i]).id == id;
            assert(records[i].id == id);
        } else if exists|i: int| 0 <= i < records.len() && (#[trigger] records[i]).id == id {
            let i = choose|i: int| 0 <= i < records.len() && (#[trigger] records[i]).id == id;
            assert(front[i].id == id);
        }
    }
}

/// The last record with a given identifier is the one that the index holds
/// under it.
pub proof fn lemma_index_last_wins(records: Seq<UsnRecord>, i: int)
    requires
        0 <= i < records.len(),
        forall|j: int| i < j < records.len() ==> (#[trigger] records[j]).id != records[i].id,
    ensures
        index_of(records).contains_key(records[i].id),
        index_of(records)[records[i].id] == records[i],
    decreases records.len(),
{
    if i < records.len() - 1 {
        let front = records.drop_last();
        assert(records[records.len() - 1].id != records[i].id);
        assert(front[i] == records[i]);
        assert forall|j: int| i < j < front.len() implies (#[trigger] front[j]).id
            != front[i].id by {
            assert(front[j] == records[j]);
        }
        lemma_index_last_wins(front, i);
    }
}

/// The names of the ancestors of the entry `id`, nearest first: the walk
/// follows parent identifiers for as long as the parent is in the index and
/// is not among the entries `seen` on the way.
pub open spec fn lineage(index: Map<u64, UsnRecord>, id: u64, seen: Set<u64>) -> Seq<Seq<char>>
    decreases index.dom().difference(seen).len(),
    when index.dom().finite()
    via lineage_decreases
{
    if index.contains_key(id) && index.contains_key(index[id].parent_id) && !seen.contains(
        index[id].parent_id,
    ) {
        let parent = index[id].parent_id;
        seq![index[parent].filename@] + lineage(index, parent, seen.insert(parent))
    } else {
        Seq::empty()
    }
}

#[via_fn]
proof fn lineage_decreases(index: Map<u64, UsnRecord>, id: u64, seen: Set<u64>) {
    let parent = index[id].parent_id;
    if index.contains_key(id) && index.contains_key(parent) && !seen.contains(parent) {
        assert(index.dom().difference(seen.insert(parent)) =~= index.dom().difference(
            seen,
        ).remove(parent));
    }
}

/// The path of the entry `id`, as the names from its outermost known
/// ancestor down to its own.  The walk upwards ends at the first parent that
/// the index lacks, and at a parent that the walk has met before, so it ends
/// even where parent references run in a circle.
pub open spec fn path_of(index: Map<u64, UsnRecord>, id: u64) -> Seq<Seq<char>> {
    (seq![index[id].filename@] + lineage(index, id, set![id])).reverse()
}

/// An entry whose parent the index lacks has its own name for a path: the
/// walk ends at that level.
pub proof fn lemma_path_without_parent(index: Map<u64, UsnRecord>, id: u64)
    requires
        index.dom().finite(),
        !index.contains_key(index[id].parent_id),
    ensures
        path_of(index, id) == seq![index[id].filename@],
{
    assert(path_of(index, id) =~= seq![index[id].filename@]);
}

/// The identifiers of the ancestors whose names `lineage` lists.
pub open spec fn ancestors(index: Map<u64, UsnRecord>, id: u64, seen: Set<u64>) -> Seq<u64>
    decreases index.dom().difference(seen).len(),
    when index.dom().finite()
    via ancestors_decreases
{
    if index.contains_key(id) && index.contains_key(index[id].parent_id) && !seen.contains(
        index[id].parent_id,
    ) {
        let parent = index[id].parent_id;
        seq![parent] + ancestors(index, parent, seen.insert(parent))
    } else {
        Seq::empty()
    }
}

#[via_fn]
proof fn ancestors_decreases(index: Map<u64, UsnRecord>, id: u64, seen: Set<u64>) {
    let parent = index[id].parent_id;
    if index.contains_key(id) && index.contains_key(parent) && !seen.contains(parent) {
        assert(index.dom().difference(seen.insert(parent)) =~= index.dom().difference(
            seen,
        ).remove(parent));
    }
}

proof fn lemma_unmet_entry(index: Map<u64, UsnRecord>, id: u64, seen: Set<u64>, other: u64)
    requires
        index.dom().finite(),
        !ancestors(index, id, seen).contains(other),
    ensures
        lineage(index, id, seen.insert(other)) == lineage(index, id, seen),
    decreases index.dom().difference(seen).len(),
{
    let parent = index[id].parent_id;
    if index.contains_key(id) && index.contains_key(parent) && !seen.contains(parent) {
        let rest = ancestors(index, parent, seen.insert(parent));
        assert(ancestors(index, id, seen)[0] == parent);
        assert(parent != other);
        assert forall|n: int| 0 <= n < rest.len() implies rest[n] != other by {
            assert(ancestors(index, id, seen)[n + 1] == rest[n]);
        }
        assert(index.dom().difference(seen.insert(parent)) =~= index.dom().difference(
            seen,
        ).remove(parent));
        lemma_unmet_entry(index, parent, seen.insert(parent), other);
        assert(seen.insert(other).insert(parent) =~= seen.insert(parent).insert(other));
    }
}

/// In a tree, the path of an entry is the path of its parent followed by
/// the entry's own name: this holds wherever the parent is in the index and
/// the walk upwards from the parent does not come back to the entry.
pub proof fn lemma_path_extends_parent(index: Map<u64, UsnRecord>, id: u64)
    requires
        index.dom().finite(),
        index.contains_key(id),
        index.contains_key(index[id].parent_id),
        index[id].parent_id != id,
        !ancestors(index, index[id].parent_id, set![index[id].parent_id]).contains(id),
    ensures
        path_of(index, id) == path_of(index, index[id].parent_id).push(index[id].filename@),
{
    let parent = index[id].parent_id;
    let above = lineage(index, parent, set![parent]);
    lemma_unmet_entry(index, parent, set![parent], id);
    assert(set![id].insert(parent) =~= set![parent].insert(id));
    assert(lineage(index, id, set![id]) == seq![index[parent].filename@] + above);
    let own = seq![index[id].filename@];
    let upper = seq![index[parent].filename@] + above;
    assert((own + upper).reverse() =~= upper.reverse().push(index[id].filename@));
}

/// The characters of each string of a sequence.
pub open spec fn texts(strings: Seq<String>) -> Seq<Seq<char>> {
    strings.map_values(|s: String| s@)
}

/// The characters of each component of each path of a sequence.
pub open spec fn paths_texts(paths: Seq<Vec<String>>) -> Seq<Seq<Seq<char>>> {
    paths.map_values(|p: Vec<String>| texts(p@))
}

/// The paths of the files among the entries `order`, in that order.
/// Directories give no path.
pub open spec fn file_paths(index: Map<u64, UsnRecord>, order: Seq<u64>) -> Seq<Seq<Seq<char>>>
    decreases order.len(),
{
    if order.len() == 0 {
        Seq::empty()
    } else {
        let front = file_paths(index, order.drop_last());
        if index[order.last()].record_type == UsnRecordType::File {
            front.push(path_of(index, order.last()))
        } else {
            front
        }
    }
}

/// The components of a path written one behind the other, with `separator`
/// between each two.
pub open spec fn joined(components: Seq<Seq<char>>, separator: Seq<char>) -> Seq<char>
    decreases components.len(),
{
    if components.len() == 0 {
        Seq::empty()
    } else if components.len() == 1 {
        components[0]
    } else {
        joined(components.drop_last(), separator) + separator + components.last()
    }
}

/// Writes a path's components one behind the other, with `separator` between
/// each two.
pub fn join_path(components: &Vec<String>, separator: &str) -> (path: String)
    ensures
        path@ == joined(texts(components@), separator@),
{
    let mut path = String::new();
    let mut i: usize = 0;
    while i < components.len()
        invariant
            i <= components@.len(),
            path@ == joined(texts(components@).take(i as int), separator@),
        decreases components@.len() - i,
    {
        let ghost front = texts(components@).take(i as int);
        let ghost next = texts(components@).take(i + 1);
        assert(next.drop_last() =~= front);
        assert(next.last() == components@[i as int]@);
        if i > 0 {
            path.append(separator);
        } else {
            assert(path@ + components@[i as int]@ =~= components@[i as int]@);
        }
        path.append(components[i].as_str());
        i += 1;
    }
    assert(texts(components@).take(components@.len() as int) =~= texts(components@));
    path
}

fn climb(map: &HashMap<u64, UsnRecord>, id: u64, seen: &mut HashSet<u64>) -> (path: Vec<String>)
    requires
        map@.contains_key(id),
    ensures
        texts(path@) == path_of(map@, id),
{
    let start = map.get(&id).unwrap();
    let mut upwards: Vec<String> = Vec::new();
    upwards.push(start.filename.clone());
    seen.clear();
    seen.insert(id);
    assert(seen@ =~= set![id]);
    let mut current: u64 = id;
    let mut parent_id: u64 = start.parent_id;
    loop
        invariant
            map@.contains_key(current),
            parent_id == map@[current].parent_id,
            texts(upwards@) + lineage(map@, current, seen@) == seq![map@[id].filename@] + lineage(
                map@,
                id,
                set![id],
            ),
        ensures
            texts(upwards@) == seq![map@[id].filename@] + lineage(map@, id, set![id]),
        decreases map@.dom().difference(seen@).len(),
    {
        let ghost before = seen@;
        match map.get(&parent_id) {
            Some(parent) => {
                if !seen.insert(parent_id) {
                    assert(texts(upwards@) + Seq::<Seq<char>>::empty() =~= texts(upwards@));
                    break ;
                }
                assert(texts(upwards@.push(parent.filename)) =~= texts(upwards@) + seq![
                    parent.filename@,
                ]);
                assert(texts(upwards@) + (seq![parent.filename@] + lineage(
                    map@,
                    parent_id,
                    seen@,
                )) =~= texts(upwards@) + seq![parent.filename@] + lineage(
                    map@,
                    parent_id,
                    seen@,
                ));
                assert(map@.dom().difference(seen@) =~= map@.dom().difference(before).remove(
                    parent_id,
                ));
                upwards.push(parent.filename.clone());
                current = parent_id;
                parent_id = parent.parent_id;
            },
            None => {
                assert(texts(upwards@) + Seq::<Seq<char>>::empty() =~= texts(upwards@));
                break ;
            },
        }
    }
    let ghost whole = upwards@;
    let mut path: Vec<String> = Vec::with_capacity(upwards.len());
    while upwards.len() > 0
        invariant
            upwards@ == whole.take(upwards@.len() as int),
            path@.len() + upwards@.len() == whole.len(),
            forall|i: int| 0 <= i < path@.len() ==> path@[i] == whole[whole.len() - 1 - i],
        decreases upwards@.len(),
    {
        let name = upwards.pop().unwrap();
        path.push(name);
    }
    assert(texts(path@) =~= texts(whole).reverse());
    path
}

/// The path of one entry of the index, outermost ancestor first.
pub fn path_components(map: &HashMap<u64, UsnRecord>, id: u64) -> (path: Vec<String>)
    requires
        map@.contains_key(id),
    ensures
        texts(path@) == path_of(map@, id),
{
    let mut seen: HashSet<u64> = HashSet::new();
    climb(map, id, &mut seen)
}

/// Rebuilds the path of every file of the index, as its components from the
/// outermost known ancestor down to the file's own name.  Directories give no
/// path of their own.  The paths come in the order in which the index hands
/// out its keys.
pub fn hash_map_to_paths(map: &HashMap<u64, UsnRecord>) -> (full_paths: Vec<Vec<String>>)
    ensures
        exists|order: Seq<u64>|
            {
                &&& order.no_duplicates()
                &&& order.to_set() == map@.dom()
                &&& paths_texts(full_paths@) == #[trigger] file_paths(map@, order)
            },
{
    let mut full_paths: Vec<Vec<String>> = Vec::new();
    let mut seen: HashSet<u64> = HashSet::new();
    let keys = map.keys();
    let ghost order = keys.remaining().unref();
    for key in it: keys
        invariant
            it.seq().unref() == order,
            order.to_set() == map@.dom(),
            paths_texts(full_paths@) == file_paths(map@, order.take(it.index())),
    {
        assert(order.take(it.index() + 1).drop_last() =~= order.take(it.index()));
        assert(order.contains(*key));
        let record = map.get(key).unwrap();
        match record.record_type {
            UsnRecordType::Directory => {},
            UsnRecordType::File => {
                let path = climb(map, *key, &mut seen);
                assert(paths_texts(full_paths@.push(path)) =~= paths_texts(full_paths@).push(
                    texts(path@),
                ));
                full_paths.push(path);
            },
        }
    }
    assert(order.take(order.len() as int) =~= order);
    full_paths
}

} // verus!
