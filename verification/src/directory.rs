//! Where the files of a synchronized directory are.
//!
//! Paths are lists of components, to be put together by whoever opens the files.

use vstd::prelude::*;

use crate::order::copy_path;

verus! {

/// The directory of a collection: below the shared directory, by sync type and, where a sync type
/// has several, by collection.
pub open spec fn subdir(
    decsync_dir: Seq<char>,
    sync_type: Seq<char>,
    collection: Option<Seq<char>>,
) -> Seq<Seq<char>> {
    match collection {
        Some(collection) => seq![decsync_dir, sync_type, collection],
        None => seq![decsync_dir, sync_type],
    }
}

/// The directory that an app writes its entries to.
pub open spec fn app_dir(dir: Seq<Seq<char>>, app_id: Seq<char>) -> Seq<Seq<char>> {
    dir.push("v2"@).push(app_id)
}

/// A file of an app.
pub open spec fn app_file(dir: Seq<Seq<char>>, app_id: Seq<char>, name: Seq<char>) -> Seq<Seq<char>> {
    app_dir(dir, app_id).push(name)
}

/// The directory that an app keeps its read state in.
pub open spec fn state_dir(dir: Seq<Seq<char>>, app_id: Seq<char>) -> Seq<Seq<char>> {
    dir.push("local"@).push(app_id)
}

/// The read state of an app: the sequence numbers up to which it has read the files of the others.
pub open spec fn state_file(dir: Seq<Seq<char>>, app_id: Seq<char>) -> Seq<Seq<char>> {
    state_dir(dir, app_id).push("sequences"@)
}

/// The path with one more component.
pub(crate) fn child(path: &Vec<String>, name: &str) -> (r: Vec<String>)
    ensures
        r.deep_view() == path.deep_view().push(name@),
{
    let mut r = copy_path(path);
    r.push(name.to_owned());
    assert(r.deep_view() =~= path.deep_view().push(name@));
    r
}

/// The directory of a collection, by the components of its path.
pub fn get_decsync_subdir(decsync_dir: &str, sync_type: &str, collection: Option<&str>) -> (r: Vec<
    String,
>)
    ensures
        r.deep_view() == subdir(
            decsync_dir@,
            sync_type@,
            match collection {
                Some(collection) => Some(collection@),
                None => None,
            },
        ),
{
    let mut r: Vec<String> = Vec::new();
    r.push(decsync_dir.to_owned());
    r.push(sync_type.to_owned());
    match collection {
        Some(collection) => {
            r.push(collection.to_owned());
            assert(r.deep_view() =~= seq![decsync_dir@, sync_type@, collection@]);
        },
        None => {
            assert(r.deep_view() =~= seq![decsync_dir@, sync_type@]);
        },
    }
    r
}

/// The files of an app are below `v2`, its read state below `local`, both by its id; the directory
/// of a collection is below the shared directory by sync type and collection.
pub proof fn where_the_files_are(
    decsync_dir: Seq<char>,
    sync_type: Seq<char>,
    collection: Option<Seq<char>>,
    dir: Seq<Seq<char>>,
    app_id: Seq<char>,
    name: Seq<char>,
)
    ensures
        subdir(decsync_dir, sync_type, collection) == match collection {
            Some(collection) => seq![decsync_dir, sync_type, collection],
            None => seq![decsync_dir, sync_type],
        },
        app_dir(dir, app_id) == dir + seq!["v2"@, app_id],
        app_file(dir, app_id, name) == dir + seq!["v2"@, app_id, name],
        state_dir(dir, app_id) == dir + seq!["local"@, app_id],
        state_file(dir, app_id) == dir + seq!["local"@, app_id, "sequences"@],
{
    assert(app_dir(dir, app_id) =~= dir + seq!["v2"@, app_id]);
    assert(app_file(dir, app_id, name) =~= dir + seq!["v2"@, app_id, name]);
    assert(state_dir(dir, app_id) =~= dir + seq!["local"@, app_id]);
    assert(state_file(dir, app_id) =~= dir + seq!["local"@, app_id, "sequences"@]);
}

} // verus!
