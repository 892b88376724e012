//! The list of the absolute paths of all files of one drive.

use crate::ntfs::UsnRecord;
use crate::utils::{
    file_paths, hash_map_to_paths, index_of, join_path, joined, paths_texts, texts,
    usn_records_to_hash_map,
};
use vstd::prelude::*;
use vstd::string::StringExecFns;

verus! {

/// The character that separates the components of a path on a volume.
pub open spec fn separator() -> Seq<char> {
    seq!['\\']
}

/// The absolute path of a file on `drive`: the drive, a separator, and the
/// file's components with separators between them.
pub open spec fn absolute(drive: Seq<char>, components: Seq<Seq<char>>) -> Seq<char> {
    drive + separator() + joined(components, separator())
}

/// The absolute paths on `drive` of a sequence of relative paths.
pub open spec fn absolute_paths(drive: Seq<char>, paths: Seq<Seq<Seq<char>>>) -> Seq<Seq<char>> {
    paths.map_values(|components: Seq<Seq<char>>| absolute(drive, components))
}

/// The absolute paths of the files of a drive.
pub struct DirList {
    paths: Vec<String>,
}

impl View for DirList {
    type V = Seq<Seq<char>>;

    /// The paths, each as its characters.
    closed spec fn view(&self) -> Seq<Seq<char>> {
        texts(self.paths@)
    }
}

impl DirList {
    /// Lists the files among `records`, the entries enumerated from `drive`:
    /// the path of each file is rebuilt from the index of all records and
    /// written behind the drive.  Where two records share an identifier the
    /// later one counts.  The paths come in the order in which the index
    /// hands out its keys.
    pub fn new(drive: &str, records: Vec<UsnRecord>) -> (list: Self)
        ensures
            exists|order: Seq<u64>|
                {
                    &&& order.no_duplicates()
                    &&& order.to_set() == index_of(records@).dom()
                    &&& list@ == absolute_paths(
                        drive@,
                        #[trigger] file_paths(index_of(records@), order),
                    )
                },
    {
        let map = usn_records_to_hash_map(records);
        let relative = hash_map_to_paths(&map);
        let ghost order = choose|order: Seq<u64>|
            {
                &&& order.no_duplicates()
                &&& order.to_set() == map@.dom()
                &&& paths_texts(relative@) == #[trigger] file_paths(map@, order)
            };
        proof {
            reveal_strlit("\\");
            assert("\\"@ =~= separator());
        }
        let mut paths: Vec<String> = Vec::with_capacity(relative.len());
        let mut i: usize = 0;
        while i < relative.len()
            invariant
                i <= relative@.len(),
                "\\"@ == separator(),
                texts(paths@) == absolute_paths(drive@, paths_texts(relative@).take(i as int)),
            decreases relative@.len() - i,
        {
            let mut path = String::from_str(drive);
            path.append("\\");
            let tail = join_path(&relative[i], "\\");
            path.append(tail.as_str());
            assert(paths_texts(relative@)[i as int] == texts(relative@[i as int]@));
            assert(path@ == absolute(drive@, paths_texts(relative@)[i as int]));
            assert(paths_texts(relative@).take(i + 1) =~= paths_texts(relative@).take(
                i as int,
            ).push(paths_texts(relative@)[i as int]));
            assert(texts(paths@.push(path)) =~= texts(paths@).push(path@));
            assert(absolute_paths(
                drive@,
                paths_texts(relative@).take(i as int).push(paths_texts(relative@)[i as int]),
            ) =~= absolute_paths(drive@, paths_texts(relative@).take(i as int)).push(
                absolute(drive@, paths_texts(relative@)[i as int]),
            ));
            assert(texts(paths@.push(path)) =~= absolute_paths(
                drive@,
                paths_texts(relative@).take(i + 1),
            ));
            paths.push(path);
            i += 1;
        }
        assert(paths_texts(relative@).take(relative@.len() as int) =~= paths_texts(relative@));
        DirList { paths }
    }

    /// The paths of the list, in order.
    pub fn iter(&self) -> (paths: &Vec<String>)
        ensures
            texts(paths@) == self@,
    {
        &self.paths
    }
}

} // verus!
