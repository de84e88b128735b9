//! Where the files to upload lie, and under which keys they are stored.

use crate::views::{option_view, views};
use vstd::prelude::*;

verus! {

/// One entry that a walk through a directory tree came to.
#[derive(Debug)]
pub struct WalkedEntry {
    /// Whether the entry is a regular file.
    pub is_file: bool,
    /// The path of the entry, starting with the path of the directory that was walked.
    pub path: String,
}

/// What a [`WalkedEntry`] says.
pub struct WalkedView {
    pub is_file: bool,
    pub path: Seq<char>,
}

impl View for WalkedEntry {
    type V = WalkedView;

    open spec fn view(&self) -> WalkedView {
        WalkedView { is_file: self.is_file, path: self.path@ }
    }
}

/// A file to upload and the key that it is stored under.
#[derive(Debug)]
pub struct AssetLocation {
    /// The position of the file in the walk that found it.
    pub entry: usize,
    /// The path of the file.
    pub source: String,
    /// The key: a slash, then the path below the directory that was walked.
    pub key: String,
}

/// What an [`AssetLocation`] says.
pub struct LocationView {
    pub entry: int,
    pub source: Seq<char>,
    pub key: Seq<char>,
}

impl View for AssetLocation {
    type V = LocationView;

    open spec fn view(&self) -> LocationView {
        LocationView { entry: self.entry as int, source: self.source@, key: self.key@ }
    }
}

impl Clone for AssetLocation {
    fn clone(&self) -> (location: AssetLocation)
        ensures
            location@ == self@,
            location.entry == self.entry,
            location.source@ == self.source@,
            location.key@ == self.key@,
    {
        AssetLocation {
            entry: self.entry,
            source: self.source.clone(),
            key: self.key.clone(),
        }
    }
}

/// The path that remains of `path` when the leading components that make up `base` are taken off,
/// or nothing if `path` does not start with them: what `std::path::Path::strip_prefix` returns.
pub uninterp spec fn path_below(path: Seq<char>, base: Seq<char>) -> Option<Seq<char>>;

/// Calls `std::path::Path::strip_prefix`. Trusted: which path it returns, or that it returns an
/// error, is determined by the two paths alone. They are taken component by component, by the path
/// syntax of the target platform, without a look at the disk.
#[verifier::external_body]
fn strip_prefix(path: &str, base: &str) -> (below: Option<String>)
    ensures
        option_view(below) == path_below(path@, base@),
{
    match std::path::Path::new(path).strip_prefix(base) {
        Ok(below) => Some(below.to_string_lossy().into_owned()),
        Err(_) => None,
    }
}

/// The entry could be read and is a regular file.
pub open spec fn is_asset(entry: Option<WalkedView>) -> bool {
    entry is Some && entry->0.is_file
}

/// The location of a file: the `entry`-th of the walk, at `path`, which lies at `below` in the
/// directory that was walked.
pub open spec fn location(entry: int, path: Seq<char>, below: Seq<char>) -> LocationView {
    LocationView { entry, source: path, key: "/"@ + below }
}

/// The locations of the regular files of a walk through `base`, in the order of the walk; nothing
/// if one of these files does not lie below `base`.
pub open spec fn locations(walked: Seq<Option<WalkedView>>, base: Seq<char>) -> Option<
    Seq<LocationView>,
>
    decreases walked.len(),
{
    if walked.len() == 0 {
        Some(Seq::empty())
    } else {
        let before = locations(walked.drop_last(), base);
        if before is None || !is_asset(walked.last()) {
            before
        } else {
            let path = walked.last()->0.path;
            match path_below(path, base) {
                Some(below) => Some(before->0.push(location(walked.len() - 1, path, below))),
                None => None,
            }
        }
    }
}

/// The location of a file, from its place in the walk, its path, and its path below the directory
/// that was walked.
pub fn asset_location(entry: usize, path: &str, below: &str) -> (found: AssetLocation)
    ensures
        found@ == location(entry as int, path@, below@),
        found.entry == entry,
        found.source@ == path@,
        found.key@ == "/"@ + below@,
{
    AssetLocation { entry, source: path.to_owned(), key: "/".to_owned().concat(below) }
}

/// The locations of the regular files that a walk through `base` came to, in the order of the walk.
/// An entry that could not be read is `None` and is passed over, as is what is not a regular file.
/// If a file's path does not start with `base`, there is no result.
pub fn asset_locations(walked: &Vec<Option<WalkedEntry>>, base: &str) -> (found: Option<
    Vec<AssetLocation>,
>)
    ensures
        match found {
            Some(found) => locations(walked_view(walked@), base@) == Some(views(found@)),
            None => locations(walked_view(walked@), base@) is None,
        },
        found is None <==> exists|i: int|
            0 <= i < walked@.len() && (#[trigger] walked@[i]) is Some && walked@[i]->0.is_file
                && path_below(walked@[i]->0.path@, base@) is None,
        found matches Some(found) ==> {
            &&& forall|i: int|
                0 <= i < walked@.len() && (#[trigger] walked@[i]) is Some && walked@[i]->0.is_file
                    ==> exists|j: int|
                    0 <= j < found@.len() && (#[trigger] found@[j]).entry == i && found@[j].source@
                        == walked@[i]->0.path@ && found@[j].key@ == "/"@ + path_below(
                        walked@[i]->0.path@,
                        base@,
                    )->0
            &&& forall|j: int|
                0 <= j < found@.len() ==> {
                    let i = (#[trigger] found@[j]).entry as int;
                    &&& i < walked@.len()
                    &&& walked@[i] is Some
                    &&& walked@[i]->0.is_file
                    &&& found@[j].source@ == walked@[i]->0.path@
                    &&& found@[j].key@ == "/"@ + path_below(walked@[i]->0.path@, base@)->0
                }
            &&& forall|j: int, k: int|
                0 <= j < k < found@.len() ==> (#[trigger] found@[j]).entry < (
                #[trigger] found@[k]).entry
        },
{
    let ghost all = walked_view(walked@);
    let mut found: Vec<AssetLocation> = Vec::new();
    let n: usize = walked.len();
    let mut i: usize = 0;
    assert(views(found@) =~= Seq::empty());
    assert(all.take(0) =~= Seq::empty());
    while i < n
        invariant
            n == walked@.len(),
            i <= n,
            all == walked_view(walked@),
            locations(all.take(i as int), base@) == Some(views(found@)),
        decreases n - i,
    {
        let ghost here = all.take(i + 1);
        assert(here.drop_last() =~= all.take(i as int));
        assert(here.last() == option_view(walked@[i as int]));
        let ghost before = views(found@);
        if let Some(entry) = &walked[i] {
            if entry.is_file {
                match strip_prefix(entry.path.as_str(), base) {
                    Some(below) => {
                        found.push(asset_location(i, entry.path.as_str(), below.as_str()));
                        assert(views(found@) =~= before.push(
                            location(i as int, entry.path@, below@),
                        ));
                    },
                    None => {
                        proof {
                            lemma_locations_none(all, base@, i + 1);
                            lemma_locations(all, base@);
                            assert(walked@[i as int] is Some);
                        }
                        return None;
                    },
                }
            }
        }
        i += 1;
    }
    assert(all.take(n as int) =~= all);
    proof {
        let located = views(found@);
        lemma_locations(all, base@);
        assert forall|i: int| 0 <= i < walked@.len() && #[trigger] walked@[i] is Some implies all[i]
            == Some(walked@[i]->0@) by {}
        assert forall|j: int| 0 <= j < found@.len() implies located[j] == (
        #[trigger] found@[j])@ by {}
        assert forall|i: int|
            0 <= i < walked@.len() && (#[trigger] walked@[i]) is Some
                && walked@[i]->0.is_file implies exists|j: int|
            0 <= j < found@.len() && (#[trigger] found@[j]).entry == i && found@[j].source@
                == walked@[i]->0.path@ && found@[j].key@ == "/"@ + path_below(
                walked@[i]->0.path@,
                base@,
            )->0 by {
            assert(all[i] is Some && all[i]->0.is_file);
            let j = choose|j: int|
                0 <= j < located.len() && (#[trigger] located[j]).entry == i && located[j].source
                    == all[i]->0.path && located[j].key == "/"@ + path_below(
                    all[i]->0.path,
                    base@,
                )->0;
            assert(found@[j].entry == i);
        }
        assert forall|j: int, k: int| 0 <= j < k < found@.len() implies (#[trigger] found@[j]).entry
            < (#[trigger] found@[k]).entry by {
            assert(located[j].entry < located[k].entry);
        }
    }
    Some(found)
}

/// What an entry or a location says is what its fields say.
pub proof fn lemma_location_view(entry: WalkedEntry, location: AssetLocation)
    ensures
        entry@.is_file == entry.is_file,
        entry@.path == entry.path@,
        location@.entry == location.entry,
        location@.source == location.source@,
        location@.key == location.key@,
{
}

/// The views of the entries of a walk.
pub open spec fn walked_view(walked: Seq<Option<WalkedEntry>>) -> Seq<Option<WalkedView>> {
    walked.map_values(|entry: Option<WalkedEntry>| option_view(entry))
}

proof fn lemma_locations_none(walked: Seq<Option<WalkedView>>, base: Seq<char>, n: int)
    requires
        0 <= n <= walked.len(),
        locations(walked.take(n), base) is None,
    ensures
        locations(walked, base) is None,
    decreases walked.len(),
{
    if n < walked.len() {
        assert(walked.drop_last().take(n) =~= walked.take(n));
        lemma_locations_none(walked.drop_last(), base, n);
    } else {
        assert(walked.take(n) =~= walked);
    }
}

/// Every regular file of a walk is located exactly once and nothing else is: the locations are, in
/// the order of the walk, those of its files, each under a slash and its path below `base`. There
/// are no locations only where some file does not lie below `base`.
pub proof fn lemma_locations(walked: Seq<Option<WalkedView>>, base: Seq<char>)
    ensures
        locations(walked, base) is None <==> exists|i: int|
            0 <= i < walked.len() && is_asset(#[trigger] walked[i]) && path_below(
                walked[i]->0.path,
                base,
            ) is None,
        locations(walked, base) is None <==> exists|i: int|
            0 <= i < walked.len() && (#[trigger] walked[i]) is Some && walked[i]->0.is_file
                && path_below(walked[i]->0.path, base) is None,
        locations(walked, base) matches Some(found) ==> {
            &&& forall|i: int|
                0 <= i < walked.len() && (#[trigger] walked[i]) is Some && walked[i]->0.is_file
                    ==> exists|j: int|
                    0 <= j < found.len() && (#[trigger] found[j]).entry == i && found[j].source
                        == walked[i]->0.path && found[j].key == "/"@ + path_below(
                        walked[i]->0.path,
                        base,
                    )->0
            &&& forall|j: int|
                0 <= j < found.len() ==> {
                    let entry = (#[trigger] found[j]).entry;
                    &&& 0 <= entry < walked.len()
                    &&& walked[entry] is Some
                    &&& walked[entry]->0.is_file
                }
            &&& forall|j: int, k: int|
                0 <= j < k < found.len() ==> (#[trigger] found[j]).entry < (
                #[trigger] found[k]).entry
            &&& forall|j: int|
                0 <= j < found.len() ==> {
                    let entry = (#[trigger] found[j]).entry;
                    &&& 0 <= entry < walked.len()
                    &&& is_asset(walked[entry])
                    &&& found[j].source == walked[entry]->0.path
                    &&& found[j].key == "/"@ + path_below(found[j].source, base)->0
                }
            &&& forall|i: int|
                0 <= i < walked.len() && is_asset(#[trigger] walked[i]) ==> exists|j: int|
                    0 <= j < found.len() && (#[trigger] found[j]).entry == i
        },
    decreases walked.len(),
{
    if walked.len() > 0 {
        let front = walked.drop_last();
        let last = walked.len() - 1;
        lemma_locations(front, base);
        assert forall|i: int| 0 <= i < last implies walked[i] == #[trigger] front[i] by {}
        match locations(front, base) {
            None => {
                let i = choose|i: int|
                    0 <= i < front.len() && is_asset(#[trigger] front[i]) && path_below(
                        front[i]->0.path,
                        base,
                    ) is None;
                assert(is_asset(walked[i]));
            },
            Some(before) => {
                assert forall|i: int| 0 <= i < last && is_asset(#[trigger] walked[i]) implies exists|
                    j: int,
                | 0 <= j < before.len() && (#[trigger] before[j]).entry == i by {
                    assert(is_asset(front[i]));
                }
                if let Some(found) = locations(walked, base) {
                    assert forall|j: int| 0 <= j < before.len() implies #[trigger] found[j]
                        == before[j] by {}
                    assert forall|i: int| 0 <= i < walked.len() && is_asset(#[trigger] walked[i])
                        implies exists|j: int|
                        0 <= j < found.len() && (#[trigger] found[j]).entry == i by {
                        if i < last {
                            let j = choose|j: int|
                                0 <= j < before.len() && (#[trigger] before[j]).entry == i;
                            assert(found[j].entry == i);
                        } else {
                            assert(found[found.len() - 1].entry == i);
                        }
                    }
                    assert forall|i: int| 0 <= i < walked.len() && is_asset(#[trigger] walked[i])
                        implies path_below(walked[i]->0.path, base) is Some by {
                        if i < last {
                            assert(is_asset(front[i]));
                        }
                    }
                } else {
                    assert(is_asset(walked[last]));
                }
            },
        }
    }
}

} // verus!
