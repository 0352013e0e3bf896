//! What an extraction leaves on disk: the archive's tree, entry for entry.

use vstd::prelude::*;
use crate::effects::after_step;
use crate::effects::lemma_run_concat;
use crate::effects::lemma_run_step;
use crate::effects::run;
use crate::engine::root_target;
use crate::engine::ExtractionView;
use crate::nesting::below;
use crate::nesting::lemma_below_child;
use crate::path::PathView;
use crate::plan::file_steps;
use crate::plan::folder_steps;
use crate::plan::steps_of;
use crate::plan::StepView;
use crate::tree::DirectoryView;
use crate::tree::FileView;
use crate::world::directories_to;
use crate::world::drive;
use crate::world::leads_to;
use crate::world::may_create_dir;
use crate::world::Disk;
use crate::world::Entry;
use crate::world::World;

verus! {

/// No two entries of one folder share a name.
pub open spec fn siblings_distinct(files: Seq<FileView>, folders: Seq<DirectoryView>) -> bool {
    &&& forall|i: int, j: int| 0 <= i < j < files.len() ==> files[i].name != files[j].name
    &&& forall|i: int, j: int| 0 <= i < j < folders.len() ==> folders[i].name != folders[j].name
    &&& forall|i: int, j: int|
        0 <= i < files.len() && 0 <= j < folders.len() ==> files[i].name != folders[j].name
}

/// Throughout the tree, no two entries of one folder share a name.
pub open spec fn names_distinct(folder: DirectoryView) -> bool
    decreases folder,
{
    &&& siblings_distinct(folder.files, folder.folders)
    &&& forall|i: int| 0 <= i < folder.folders.len() ==> names_distinct(#[trigger] folder.folders[i])
}

/// The archive can hand out the bytes of every file of the tree.
pub open spec fn readable(folder: DirectoryView, archive: Map<u64, Seq<u8>>) -> bool
    decreases folder,
{
    &&& forall|i: int|
        0 <= i < folder.files.len() ==> archive.contains_key((#[trigger] folder.files[i]).handle)
    &&& forall|i: int| 0 <= i < folder.folders.len() ==> readable(#[trigger] folder.folders[i], archive)
}

/// The file of `files` that is called `name`.
pub open spec fn find_file(files: Seq<FileView>, name: Seq<char>) -> Option<FileView>
    decreases files.len(),
{
    if files.len() == 0 {
        None
    } else if files.last().name == name {
        Some(files.last())
    } else {
        find_file(files.drop_last(), name)
    }
}

/// The folder of `folders` that is called `name`.
pub open spec fn find_folder(folders: Seq<DirectoryView>, name: Seq<char>) -> Option<DirectoryView>
    decreases folders.len(),
{
    if folders.len() == 0 {
        None
    } else if folders.last().name == name {
        Some(folders.last())
    } else {
        find_folder(folders.drop_last(), name)
    }
}

/// What the archive holds at the path `rel`, counted from a folder with
/// these files and sub-folders: the folder itself at the empty path, a
/// file under its name, and what a sub-folder holds under the sub-folder's
/// name.
pub open spec fn entry_at(
    files: Seq<FileView>,
    folders: Seq<DirectoryView>,
    rel: PathView,
    archive: Map<u64, Seq<u8>>,
) -> Option<Entry>
    decreases rel.len(),
{
    if rel.len() == 0 {
        Some(Entry::Directory)
    } else {
        match find_folder(folders, rel[0]) {
            Some(folder) => entry_at(folder.files, folder.folders, rel.drop_first(), archive),
            None => if rel.len() == 1 {
                match find_file(files, rel[0]) {
                    Some(file) => Some(Entry::File(archive[file.handle])),
                    None => None,
                }
            } else {
                None
            },
        }
    }
}

/// The disk that holds, under `target`, exactly what a folder with these
/// files and sub-folders holds: a directory for every folder below it and a
/// file with the archive's bytes for every file.
pub open spec fn tree_below(
    target: PathView,
    files: Seq<FileView>,
    folders: Seq<DirectoryView>,
    archive: Map<u64, Seq<u8>>,
) -> Disk {
    Map::new(
        |path: PathView|
            below(path, target) && entry_at(files, folders, path.skip(target.len() as int), archive)
                is Some,
        |path: PathView| entry_at(files, folders, path.skip(target.len() as int), archive)->Some_0,
    )
}

/// The disk that holds `folder` as the directory `target`, the directories
/// that lead there, and nothing else.
pub open spec fn mirror(target: PathView, folder: DirectoryView, archive: Map<u64, Seq<u8>>) -> Disk {
    directories_to(target).union_prefer_right(
        tree_below(target, folder.files, folder.folders, archive),
    )
}

/// Nothing is on disk under `target`.
pub open spec fn vacant_below(disk: Disk, target: PathView) -> bool {
    forall|path: PathView| #[trigger] disk.contains_key(path) ==> !below(path, target)
}

/// `target` and the directories above it are on disk, as directories.
pub open spec fn directory_on(disk: Disk, target: PathView) -> bool {
    forall|path: PathView| #[trigger]
        leads_to(path, target) ==> disk.contains_key(path) && disk[path] is Directory
}

/// No file is found under a name that no file has.
proof fn lemma_find_file_none(files: Seq<FileView>, name: Seq<char>)
    requires
        forall|i: int| 0 <= i < files.len() ==> (#[trigger] files[i]).name != name,
    ensures
        find_file(files, name) is None,
    decreases files.len(),
{
    if files.len() > 0 {
        lemma_find_file_none(files.drop_last(), name);
    }
}

/// No folder is found under a name that no folder has.
proof fn lemma_find_folder_none(folders: Seq<DirectoryView>, name: Seq<char>)
    requires
        forall|i: int| 0 <= i < folders.len() ==> (#[trigger] folders[i]).name != name,
    ensures
        find_folder(folders, name) is None,
    decreases folders.len(),
{
    if folders.len() > 0 {
        lemma_find_folder_none(folders.drop_last(), name);
    }
}

/// How a path under `target` relates to the entry called `name` there.
proof fn lemma_relative(path: PathView, target: PathView, name: Seq<char>)
    requires
        below(path, target),
    ensures
        path.skip(target.len() as int).len() == path.len() - target.len(),
        path.skip(target.len() as int)[0] == path[target.len() as int],
        path[target.len() as int] == name <==> (path == target.push(name) || below(
            path,
            target.push(name),
        )),
        path == target.push(name) <==> (path.len() == target.len() + 1 && path[target.len() as int]
            == name),
        path.skip(target.len() as int).drop_first() == path.skip(target.len() as int + 1),
{
    let child = target.push(name);
    let at = target.len() as int;
    if path[at] == name {
        if path.len() == at + 1 {
            assert(path =~= child);
        }
    }
    if child.is_prefix_of(path) {
        assert(child[at] == path.subrange(0, at + 1)[at]);
    }
}

/// Writing the first `count` files of a folder into its directory puts
/// just these files there.
proof fn lemma_write_files(
    target: PathView,
    files: Seq<FileView>,
    count: int,
    world: World,
)
    requires
        target.len() >= 1,
        directory_on(world.disk, target),
        vacant_below(world.disk, target),
        forall|i: int| 0 <= i < files.len() ==> world.archive.contains_key((#[trigger] files[i]).handle),
        0 <= count <= files.len(),
    ensures
        run(file_steps(target, files.take(count)), world) == (
            ExtractionView::done(),
            World {
                disk: world.disk.union_prefer_right(
                    tree_below(target, files.take(count), Seq::empty(), world.archive),
                ),
                ..world
            },
        ),
    decreases count,
{
    let none = Seq::<DirectoryView>::empty();
    let archive = world.archive;
    if count == 0 {
        assert(file_steps(target, files.take(0)) =~= Seq::empty());
        assert(world.disk.union_prefer_right(tree_below(target, files.take(0), none, archive))
            =~= world.disk);
    } else {
        let file = files[count - 1];
        let path = target.push(file.name);
        let step = StepView::WriteFile { path, handle: file.handle };
        let sooner = files.take(count - 1);
        let upto = files.take(count);
        lemma_write_files(target, files, count - 1, world);
        let reached = World {
            disk: world.disk.union_prefer_right(tree_below(target, sooner, none, archive)),
            ..world
        };
        assert(file_steps(target, upto) =~= file_steps(target, sooner) + seq![step]);
        lemma_run_concat(file_steps(target, sooner), seq![step], world);
        assert(seq![step] =~= seq![step] + Seq::empty());
        lemma_run_step(step, Seq::empty(), reached);
        assert(upto.drop_last() =~= sooner);
        assert(leads_to(target, target));
        let wanted = world.disk.union_prefer_right(tree_below(target, upto, none, archive));
        assert(after_step(step, reached).disk =~= wanted) by {
            assert forall|other: PathView|
                #![trigger wanted.contains_key(other)]
                #![trigger after_step(step, reached).disk.contains_key(other)]
                after_step(step, reached).disk.contains_key(other) == wanted.contains_key(other) && (
                wanted.contains_key(other) ==> after_step(step, reached).disk[other]
                    == wanted[other]) by {
                if below(other, target) {
                    lemma_relative(other, target, file.name);
                }
            }
        }
    }
}

/// Extracting the first `count` sub-folders of a folder, after its files,
/// puts just these sub-folders beside the files.
proof fn lemma_extract_folders(
    target: PathView,
    files: Seq<FileView>,
    folders: Seq<DirectoryView>,
    count: int,
    world: World,
)
    requires
        target.len() >= 1,
        directory_on(world.disk, target),
        vacant_below(world.disk, target),
        siblings_distinct(files, folders),
        forall|i: int| 0 <= i < folders.len() ==> names_distinct(#[trigger] folders[i]),
        forall|i: int| 0 <= i < folders.len() ==> readable(#[trigger] folders[i], world.archive),
        0 <= count <= folders.len(),
    ensures
        run(
            folder_steps(target, folders.take(count)),
            World {
                disk: world.disk.union_prefer_right(
                    tree_below(target, files, Seq::empty(), world.archive),
                ),
                ..world
            },
        ) == (
            ExtractionView::done(),
            World {
                disk: world.disk.union_prefer_right(
                    tree_below(target, files, folders.take(count), world.archive),
                ),
                ..world
            },
        ),
    decreases folders, count,
{
    let archive = world.archive;
    let started = World {
        disk: world.disk.union_prefer_right(tree_below(target, files, Seq::empty(), archive)),
        ..world
    };
    if count == 0 {
        assert(folders.take(0) =~= Seq::empty());
    } else {
        let folder = folders[count - 1];
        let child = target.push(folder.name);
        let sooner = folders.take(count - 1);
        let upto = folders.take(count);
        lemma_extract_folders(target, files, folders, count - 1, world);
        let reached = World {
            disk: world.disk.union_prefer_right(tree_below(target, files, sooner, archive)),
            ..world
        };
        assert(upto.drop_last() =~= sooner);
        lemma_run_concat(folder_steps(target, sooner), steps_of(child, folder), started);

        // Nothing is in the way of the sub-folder: no entry before it has
        // its name.
        lemma_relative(child, target, folder.name);
        lemma_find_folder_none(sooner, folder.name);
        lemma_find_file_none(files, folder.name);
        assert(may_create_dir(reached.disk, child)) by {
            assert forall|path: PathView| #[trigger]
                leads_to(path, child) && reached.disk.contains_key(
                    path,
                ) implies reached.disk[path] is Directory by {
                if path.len() <= target.len() {
                    assert(leads_to(path, target));
                }
            }
        }
        lemma_extraction_adds_mirror(child, folder, reached);
        let wanted = world.disk.union_prefer_right(tree_below(target, files, upto, archive));
        let got = reached.disk.union_prefer_right(mirror(child, folder, archive));
        assert(got =~= wanted) by {
            assert forall|path: PathView|
                #![trigger wanted.contains_key(path)]
                #![trigger got.contains_key(path)]
                got.contains_key(path) == wanted.contains_key(path) && (wanted.contains_key(path)
                    ==> got[path] == wanted[path]) by {
                if below(path, target) {
                    lemma_relative(path, target, folder.name);
                    let rel = path.skip(target.len() as int);
                    if rel[0] == folder.name {
                        // The path is the sub-folder's or lies under it.
                        assert(find_folder(upto, rel[0]) == Some(folder));
                        if path == child {
                            assert(rel.len() == 1);
                        }
                    } else {
                        // The path has nothing to do with the sub-folder.
                        assert(find_folder(upto, rel[0]) == find_folder(sooner, rel[0]));
                    }
                } else if leads_to(path, child) {
                    assert(leads_to(path, target));
                }
            }
        }
    }
}

/// Extracting a folder into a directory under which nothing is on disk,
/// and which can be created, succeeds and puts the folder's tree there.
pub proof fn lemma_extraction_adds_mirror(target: PathView, folder: DirectoryView, world: World)
    requires
        target.len() >= 1,
        may_create_dir(world.disk, target),
        vacant_below(world.disk, target),
        names_distinct(folder),
        readable(folder, world.archive),
    ensures
        run(steps_of(target, folder), world) == (
            ExtractionView::done(),
            World {
                disk: world.disk.union_prefer_right(mirror(target, folder, world.archive)),
                ..world
            },
        ),
    decreases folder, 0nat,
{
    let archive = world.archive;
    let create = StepView::CreateDir { path: target };
    let files = file_steps(target, folder.files);
    let folders = folder_steps(target, folder.folders);
    assert(steps_of(target, folder) =~= seq![create] + (files + folders));
    lemma_run_step(create, files + folders, world);
    let made = after_step(create, world);
    lemma_run_concat(files, folders, made);
    lemma_write_files(target, folder.files, folder.files.len() as int, made);
    assert(folder.files.take(folder.files.len() as int) =~= folder.files);
    lemma_extract_folders(target, folder.files, folder.folders, folder.folders.len() as int, made);
    assert(folder.folders.take(folder.folders.len() as int) =~= folder.folders);
    assert(made.disk.union_prefer_right(
        tree_below(target, folder.files, folder.folders, archive),
    ) =~= world.disk.union_prefer_right(mirror(target, folder, archive)));
}

/// Faithful extraction. Let no two entries of one folder of the archive
/// share a name, and let the archive hand out the bytes of every file. Let
/// the output directory be empty, or not be there yet, with nothing but
/// directories leading to it. Then extracting the archive into the output
/// directory succeeds, and adds to the disk the archive's tree under the
/// directory of the root folder's name, entry for entry: a directory where
/// the archive has a folder, a file with the archive's bytes where it has a
/// file, the directories that lead there, and nothing else.
pub proof fn lemma_extraction_mirrors_archive(output: PathView, root: DirectoryView, world: World)
    requires
        names_distinct(root),
        readable(root, world.archive),
        may_create_dir(world.disk, output),
        vacant_below(world.disk, output),
    ensures
        drive(ExtractionView::start(root_target(output, root), root), world) == (
            ExtractionView::done(),
            World {
                disk: world.disk.union_prefer_right(
                    mirror(root_target(output, root), root, world.archive),
                ),
                ..world
            },
        ),
{
    let target = root_target(output, root);
    assert(below(target, output)) by {
        assert(output =~= target.subrange(0, output.len() as int));
    }
    assert(may_create_dir(world.disk, target)) by {
        assert forall|path: PathView| #[trigger]
            leads_to(path, target) && world.disk.contains_key(
                path,
            ) implies world.disk[path] is Directory by {
            if path.len() <= output.len() {
                assert(leads_to(path, output));
            } else {
                assert(path =~= target);
            }
        }
    }
    assert(vacant_below(world.disk, target)) by {
        assert forall|path: PathView| #[trigger] world.disk.contains_key(path) implies !below(
            path,
            target,
        ) by {
            if below(path, target) {
                lemma_below_child(path, output, root.name);
            }
        }
    }
    lemma_extraction_adds_mirror(target, root, world);
}

} // verus!
