//! Folder paths and the census of a scan: each file's count and size go to its
//! immediate parent directory.

use vstd::prelude::*;
use crate::config::Config;
use crate::model::{FolderStat, FolderView};
use crate::tally;
use crate::text;

verus! {

// --- paths -------------------------------------------------------------------------

/// A path with forward slashes.
pub open spec fn slashed(path: Seq<char>) -> Seq<char> {
    path.map_values(
        |c: char|
            if c == '\\' {
                '/'
            } else {
                c
            },
    )
}

/// A path begins with `./`.
pub open spec fn dotted(path: Seq<char>) -> bool {
    path.len() >= 2 && path[0] == '.' && path[1] == '/'
}

/// A path without the `./` that it may begin with, once or more often.
pub open spec fn undotted(path: Seq<char>) -> Seq<char>
    decreases path.len(),
{
    if dotted(path) {
        undotted(path.skip(2))
    } else {
        path
    }
}

/// A path without the slashes that it may end with.
pub open spec fn unslashed(path: Seq<char>) -> Seq<char>
    decreases path.len(),
{
    if path.len() > 0 && path.last() == '/' {
        unslashed(path.drop_last())
    } else {
        path
    }
}

/// A path, or "." in place of the empty one.
pub open spec fn or_dot(path: Seq<char>) -> Seq<char> {
    if path.len() == 0 {
        seq!['.']
    } else {
        path
    }
}

/// The stored form of a folder path.
pub open spec fn stored_form(path: Seq<char>) -> Seq<char> {
    or_dot(unslashed(undotted(slashed(path))))
}

/// A path relative to the root that it was stripped of; one that does not lie
/// under the root stays as it is.
pub open spec fn relative_form(stripped: Option<Seq<char>>, full: Seq<char>) -> Seq<char> {
    match stripped {
        Some(rel) => or_dot(slashed(rel)),
        None => slashed(full),
    }
}

fn forward_slashes(path: &str) -> (r: String)
    ensures
        r@ == slashed(path@),
{
    let cs = text::characters(path);
    let mut r = String::new();
    let mut from: usize = 0;
    let mut i: usize = 0;
    assert(r@ =~= slashed(path@).take(0));
    while i < cs.len()
        invariant
            cs@ == path@,
            from <= i <= cs@.len(),
            r@ == slashed(path@).take(from as int),
            forall|j: int| from <= j < i ==> path@[j] != '\\',
        decreases cs@.len() - i,
    {
        if cs[i] == '\\' {
            r.append(path.substring_char(from, i));
            r.append("/");
            proof {
                reveal_strlit("/");
                assert(r@ =~= slashed(path@).take(i + 1));
            }
            from = i + 1;
        }
        i = i + 1;
    }
    r.append(path.substring_char(from, cs.len()));
    assert(r@ =~= slashed(path@));
    r
}

/// Normalize a user-supplied folder path so it matches the stored form:
/// forward slashes, no leading `./`, no trailing slash, and the empty string
/// (or `.`) maps to ".". This lets `done`/`skip` accept native or
/// backslash paths and still match what `init` recorded.
pub fn normalize_rel(path: &str) -> (r: String)
    ensures
        r@ == stored_form(path@),
{
    let s = forward_slashes(path);
    let cs = text::characters(s.as_str());
    let ghost base = undotted(slashed(path@));
    let mut from: usize = 0;
    assert(cs@.skip(0) =~= cs@);
    while cs.len() - from >= 2 && cs[from] == '.' && cs[from + 1] == '/'
        invariant
            from <= cs@.len(),
            base == undotted(cs@.skip(from as int)),
        decreases cs@.len() - from,
    {
        assert(cs@.skip(from as int).skip(2) =~= cs@.skip(from + 2));
        from = from + 2;
    }
    let mut to: usize = cs.len();
    assert(base =~= cs@.skip(from as int));
    assert(base =~= cs@.subrange(from as int, to as int));
    while to > from && cs[to - 1] == '/'
        invariant
            from <= to <= cs@.len(),
            unslashed(base) == unslashed(cs@.subrange(from as int, to as int)),
        decreases to,
    {
        assert(cs@.subrange(from as int, to as int).drop_last() =~= cs@.subrange(
            from as int,
            to - 1,
        ));
        to = to - 1;
    }
    if to == from {
        proof {
            reveal_strlit(".");
            assert("."@ =~= seq!['.']);
        }
        ".".to_owned()
    } else {
        s.as_str().substring_char(from, to).to_owned()
    }
}

/// A path relative to the scanned root, using forward slashes; the root itself
/// is ".". `stripped` is the path without the root, if it lies under it, and
/// `full` the path as it is.
pub fn rel_path(stripped: Option<&str>, full: &str) -> (r: String)
    ensures
        r@ == relative_form(crate::model::lent_text(stripped), full@),
{
    match stripped {
        Some(rel) => {
            let s = forward_slashes(rel);
            if s.as_str().unicode_len() == 0 {
                proof {
                    reveal_strlit(".");
                    assert("."@ =~= seq!['.']);
                }
                ".".to_owned()
            } else {
                s
            }
        },
        None => forward_slashes(full),
    }
}

// --- the census ----------------------------------------------------------------------

/// A file that was found: the folder that directly contains it, and its size.
#[derive(Debug)]
pub struct FileEntry {
    pub folder: String,
    pub size: i64,
}

/// View of a [`FileEntry`].
#[verifier::ext_equal]
pub struct FileView {
    pub folder: Seq<char>,
    pub size: i64,
}

impl View for FileEntry {
    type V = FileView;

    open spec fn view(&self) -> FileView {
        FileView { folder: self.folder@, size: self.size }
    }
}

/// Files of a folder.
pub open spec fn in_folder(folder: Seq<char>) -> spec_fn(FileView) -> bool {
    |f: FileView| f.folder == folder
}

/// Sum of the sizes of a folder's files.
pub open spec fn size_in(files: Seq<FileView>, folder: Seq<char>) -> int
    decreases files.len(),
{
    if files.len() == 0 {
        0
    } else {
        size_in(files.drop_last(), folder) + if files.last().folder == folder {
            files.last().size as int
        } else {
            0int
        }
    }
}

/// The counts and the sums of the sizes of the files fit their types.
pub open spec fn summable(files: Seq<FileView>) -> bool {
    &&& files.len() <= i64::MAX
    &&& forall|n: int, folder: Seq<char>|
        0 <= n <= files.len() ==> i64::MIN <= #[trigger] size_in(files.take(n), folder) <= i64::MAX
}

/// Folders in strictly ascending order of their paths.
pub open spec fn ascending(folders: Seq<FolderView>) -> bool {
    forall|i: int, j: int|
        #![trigger folders[i], folders[j]]
        0 <= i < j < folders.len() ==> text::text_before(folders[i].path, folders[j].path)
}

/// The folder's count and size are those of its files.
pub open spec fn tallied(files: Seq<FileView>, f: FolderView) -> bool {
    &&& f.file_count == tally::count(files, in_folder(f.path))
    &&& f.size_bytes == size_in(files, f.path)
    &&& f.churn == 0
}

/// The folder was met on the walk: it holds a file, or is one of the directories.
pub open spec fn met(dirs: Seq<Seq<char>>, f: FolderView) -> bool {
    f.file_count > 0 || dirs.contains(f.path)
}

/// One of the folders has the path.
pub open spec fn lists(folders: Seq<FolderView>, path: Seq<char>) -> bool {
    exists|i: int| 0 <= i < folders.len() && (#[trigger] folders[i]).path == path
}

/// `folders` are the directories `dirs` and the folders of `files`, each once,
/// in order, with the number and size of the files that they directly hold.
pub open spec fn is_census(
    files: Seq<FileView>,
    dirs: Seq<Seq<char>>,
    folders: Seq<FolderView>,
) -> bool {
    &&& ascending(folders)
    &&& forall|i: int|
        0 <= i < folders.len() ==> tallied(files, #[trigger] folders[i]) && met(dirs, folders[i])
    &&& forall|j: int| 0 <= j < files.len() ==> lists(folders, (#[trigger] files[j]).folder)
    &&& forall|j: int| 0 <= j < dirs.len() ==> lists(folders, #[trigger] dirs[j])
}

/// Place of the first folder that does not stand before `path`.
fn position(folders: &Vec<FolderStat>, path: &str) -> (r: usize)
    requires
        ascending(tally::views(folders@)),
    ensures
        r <= folders@.len(),
        forall|i: int| 0 <= i < r ==> text::text_before((#[trigger] folders@[i])@.path, path@),
        forall|i: int|
            r <= i < folders@.len() ==> !text::text_before((#[trigger] folders@[i])@.path, path@),
{
    let mut lo: usize = 0;
    let mut hi: usize = folders.len();
    while lo < hi
        invariant
            lo <= hi <= folders@.len(),
            ascending(tally::views(folders@)),
            forall|i: int| 0 <= i < lo ==> text::text_before((#[trigger] folders@[i])@.path, path@),
            forall|i: int|
                hi <= i < folders@.len() ==> !text::text_before(
                    (#[trigger] folders@[i])@.path,
                    path@,
                ),
        decreases hi - lo,
    {
        let mid: usize = lo + (hi - lo) / 2;
        let ghost vs = tally::views(folders@);
        let ghost at = folders@[mid as int]@.path;
        assert(vs[mid as int] == folders@[mid as int]@);
        if text::before(folders[mid].path.as_str(), path) {
            proof {
                assert forall|i: int| 0 <= i <= mid implies text::text_before(
                    (#[trigger] folders@[i])@.path,
                    path@,
                ) by {
                    assert(vs[i] == folders@[i]@);
                    text::lemma_text_order(vs[i].path, at, path@);
                }
            }
            lo = mid + 1;
        } else {
            proof {
                assert forall|i: int| mid <= i < folders@.len() implies !text::text_before(
                    (#[trigger] folders@[i])@.path,
                    path@,
                ) by {
                    assert(vs[i] == folders@[i]@);
                    text::lemma_text_order(at, vs[i].path, path@);
                }
            }
            hi = mid;
        }
    }
    lo
}

/// Whether the folder in place `at` is the one of this path.
fn holds(folders: &Vec<FolderStat>, at: usize, path: &str) -> (r: bool)
    ensures
        r == (at < folders@.len() && folders@[at as int]@.path == path@),
{
    at < folders.len() && text::same(folders[at].path.as_str(), path)
}

/// Some directories, in order, without files.
fn bare(dirs: &Vec<String>) -> (r: Vec<FolderStat>)
    ensures
        is_census(Seq::empty(), crate::config::texts(dirs@), tally::views(r@)),
{
    let ghost names = crate::config::texts(dirs@);
    let ghost none = Seq::<FileView>::empty();
    let mut acc: Vec<FolderStat> = Vec::new();
    let mut i: usize = 0;
    while i < dirs.len()
        invariant
            i <= dirs@.len(),
            names == crate::config::texts(dirs@),
            none == Seq::<FileView>::empty(),
            is_census(none, names.take(i as int), tally::views(acc@)),
        decreases dirs@.len() - i,
    {
        let dir = dirs[i].as_str();
        let at = position(&acc, dir);
        let ghost vs = tally::views(acc@);
        assert(forall|k: int| 0 <= k < acc@.len() ==> vs[k] == acc@[k]@);
        assert(names[i as int] == dir@);
        if holds(&acc, at, dir) {
            proof {
                assert(vs[at as int].path == dir@);
                lemma_named_again(names, i as int, vs);
            }
        } else {
            proof {
                lemma_not_at(vs, at as int, dir@);
            }
            let f = FolderStat { path: dirs[i].clone(), file_count: 0, size_bytes: 0, churn: 0 };
            acc.insert(at, f);
            proof {
                assert(tally::views(acc@) =~= vs.insert(at as int, acc@[at as int]@));
                lemma_named_first(names, i as int, vs, tally::views(acc@), at as int);
            }
        }
        i = i + 1;
    }
    assert(names.take(dirs@.len() as int) =~= names);
    acc
}

/// One more directory that is listed already.
proof fn lemma_named_again(names: Seq<Seq<char>>, i: int, was: Seq<FolderView>)
    requires
        0 <= i < names.len(),
        is_census(Seq::empty(), names.take(i), was),
        lists(was, names[i]),
    ensures
        is_census(Seq::empty(), names.take(i + 1), was),
{
    let before = names.take(i);
    let after = names.take(i + 1);
    assert forall|k: int| 0 <= k < was.len() implies met(after, #[trigger] was[k]) by {
        assert(met(before, was[k]));
        if before.contains(was[k].path) {
            let j = choose|j: int| 0 <= j < before.len() && before[j] == was[k].path;
            assert(after[j] == was[k].path);
        }
    }
    assert forall|j: int| 0 <= j < after.len() implies lists(was, #[trigger] after[j]) by {
        if j < i {
            assert(after[j] == before[j]);
        }
    }
}

/// One more directory, put in place `at`.
proof fn lemma_named_first(
    names: Seq<Seq<char>>,
    i: int,
    was: Seq<FolderView>,
    is: Seq<FolderView>,
    at: int,
)
    requires
        0 <= i < names.len(),
        is_census(Seq::empty(), names.take(i), was),
        0 <= at <= was.len(),
        forall|k: int| 0 <= k < at ==> text::text_before((#[trigger] was[k]).path, names[i]),
        forall|k: int|
            at <= k < was.len() ==> !text::text_before((#[trigger] was[k]).path, names[i]),
        forall|k: int| 0 <= k < was.len() ==> (#[trigger] was[k]).path != names[i],
        is == was.insert(
            at,
            FolderView { path: names[i], file_count: 0, size_bytes: 0, churn: 0 },
        ),
    ensures
        is_census(Seq::empty(), names.take(i + 1), is),
{
    let none = Seq::<FileView>::empty();
    let before = names.take(i);
    let after = names.take(i + 1);
    assert(after[i] == names[i]);
    lemma_insert_ascending(was, is, at, names[i]);
    assert forall|k: int| 0 <= k < is.len() implies tallied(none, #[trigger] is[k]) && met(
        after,
        is[k],
    ) by {
        if k != at {
            let q = if k < at {
                k
            } else {
                k - 1
            };
            assert(is[k] == was[q]);
            assert(tallied(none, was[q]) && met(before, was[q]));
            if before.contains(was[q].path) {
                let j = choose|j: int| 0 <= j < before.len() && before[j] == was[q].path;
                assert(after[j] == was[q].path);
            }
        } else {
            assert(after.contains(is[k].path));
        }
    }
    assert forall|j: int| 0 <= j < after.len() implies lists(is, #[trigger] after[j]) by {
        if j < i {
            assert(after[j] == before[j]);
            lemma_insert_lists(was, is, at, before[j]);
        } else {
            assert(is[at].path == after[j]);
        }
    }
}

/// A list with one more item still lists what it did.
proof fn lemma_insert_lists(was: Seq<FolderView>, is: Seq<FolderView>, at: int, path: Seq<char>)
    requires
        0 <= at <= was.len(),
        is == was.insert(at, is[at]),
        lists(was, path),
    ensures
        lists(is, path),
{
    let k = choose|k: int| 0 <= k < was.len() && (#[trigger] was[k]).path == path;
    if k < at {
        assert(is[k] == was[k]);
    } else {
        assert(is[k + 1] == was[k]);
    }
}

/// A path put where it belongs keeps a list in order.
proof fn lemma_insert_ascending(
    was: Seq<FolderView>,
    is: Seq<FolderView>,
    at: int,
    path: Seq<char>,
)
    requires
        ascending(was),
        0 <= at <= was.len(),
        is == was.insert(at, is[at]),
        is[at].path == path,
        forall|k: int| 0 <= k < at ==> text::text_before((#[trigger] was[k]).path, path),
        forall|k: int| at <= k < was.len() ==> !text::text_before((#[trigger] was[k]).path, path),
        forall|k: int| 0 <= k < was.len() ==> (#[trigger] was[k]).path != path,
    ensures
        ascending(is),
{
    assert forall|x: int, y: int|
        #![trigger is[x], is[y]]
        0 <= x < y < is.len() implies text::text_before(is[x].path, is[y].path) by {
        let a = if x < at {
            x
        } else {
            x - 1
        };
        let b = if y < at {
            y
        } else {
            y - 1
        };
        if x == at {
            assert(is[y] == was[b]);
            assert(was[b].path != path);
            text::lemma_text_order(path, was[b].path, path);
        } else if y == at {
            assert(is[x] == was[a]);
        } else {
            assert(is[x] == was[a] && is[y] == was[b]);
        }
    }
}

/// Some directories and the folders of a list of files, in order.
fn census(files: &Vec<FileEntry>, dirs: &Vec<String>) -> (r: Vec<FolderStat>)
    requires
        summable(tally::views(files@)),
    ensures
        is_census(tally::views(files@), crate::config::texts(dirs@), tally::views(r@)),
{
    let ghost all = tally::views(files@);
    let ghost names = crate::config::texts(dirs@);
    let mut acc: Vec<FolderStat> = bare(dirs);
    let mut i: usize = 0;
    assert(all.take(0) =~= Seq::<FileView>::empty());
    while i < files.len()
        invariant
            i <= files@.len(),
            all == tally::views(files@),
            summable(all),
            is_census(all.take(i as int), names, tally::views(acc@)),
        decreases files@.len() - i,
    {
        let folder = files[i].folder.as_str();
        let at = position(&acc, folder);
        let ghost before = all.take(i as int);
        let ghost after = all.take(i + 1);
        let ghost vs = tally::views(acc@);
        proof {
            assert(all[i as int] == files@[i as int]@);
            assert(after.drop_last() =~= before);
            assert(after.last() == all[i as int]);
            assert(i64::MIN <= size_in(all.take(i + 1), folder@) <= i64::MAX);
            tally::lemma_count_bound(before, in_folder(folder@));
            assert(forall|k: int| 0 <= k < acc@.len() ==> vs[k] == acc@[k]@);
        }
        if holds(&acc, at, folder) {
            assert(tallied(before, vs[at as int]));
            let mut f = acc[at].clone();
            f.file_count = f.file_count + 1;
            f.size_bytes = f.size_bytes + files[i].size;
            acc.set(at, f);
            proof {
                assert(tally::views(acc@) =~= vs.update(at as int, acc@[at as int]@));
                lemma_census_step(all, names, i as int, vs, tally::views(acc@), at as int);
            }
        } else {
            proof {
                lemma_not_at(vs, at as int, folder@);
                lemma_absent(before, names, vs, folder@);
            }
            let f = FolderStat {
                path: files[i].folder.clone(),
                file_count: 1,
                size_bytes: files[i].size,
                churn: 0,
            };
            acc.insert(at, f);
            proof {
                assert(tally::views(acc@) =~= vs.insert(at as int, acc@[at as int]@));
                lemma_census_step(all, names, i as int, vs, tally::views(acc@), at as int);
            }
        }
        i = i + 1;
    }
    assert(all.take(files@.len() as int) =~= all);
    acc
}

/// A path that is not where it would stand is not there at all.
proof fn lemma_not_at(folders: Seq<FolderView>, at: int, path: Seq<char>)
    requires
        ascending(folders),
        0 <= at <= folders.len(),
        forall|k: int| 0 <= k < at ==> text::text_before((#[trigger] folders[k]).path, path),
        forall|k: int|
            at <= k < folders.len() ==> !text::text_before((#[trigger] folders[k]).path, path),
        at < folders.len() ==> folders[at].path != path,
    ensures
        forall|k: int| 0 <= k < folders.len() ==> (#[trigger] folders[k]).path != path,
{
    assert forall|k: int| 0 <= k < folders.len() implies (#[trigger] folders[k]).path != path by {
        text::lemma_text_order(path, path, path);
        if at < k {
            assert(text::text_before(folders[at].path, folders[k].path));
        }
    }
}

/// A folder that is not in the census has no files.
proof fn lemma_absent(
    files: Seq<FileView>,
    dirs: Seq<Seq<char>>,
    folders: Seq<FolderView>,
    folder: Seq<char>,
)
    requires
        is_census(files, dirs, folders),
        forall|k: int| 0 <= k < folders.len() ==> (#[trigger] folders[k]).path != folder,
    ensures
        tally::count(files, in_folder(folder)) == 0,
        size_in(files, folder) == 0,
{
    assert forall|j: int| 0 <= j < files.len() implies (#[trigger] files[j]).folder != folder by {
        assert(lists(folders, files[j].folder));
    }
    tally::lemma_count_zero(files, in_folder(folder));
    lemma_no_size(files, folder);
}

proof fn lemma_no_size(files: Seq<FileView>, folder: Seq<char>)
    requires
        forall|j: int| 0 <= j < files.len() ==> (#[trigger] files[j]).folder != folder,
    ensures
        size_in(files, folder) == 0,
    decreases files.len(),
{
    if files.len() > 0 {
        let t = files.drop_last();
        assert forall|j: int| 0 <= j < t.len() implies (#[trigger] t[j]).folder != folder by {
            assert(t[j] == files[j]);
        }
        lemma_no_size(t, folder);
        assert(files.last() == files[files.len() - 1]);
    }
}

/// One more file: its folder, in place `at`, is counted up or put in.
proof fn lemma_census_step(
    all: Seq<FileView>,
    dirs: Seq<Seq<char>>,
    i: int,
    was: Seq<FolderView>,
    is: Seq<FolderView>,
    at: int,
)
    requires
        0 <= i < all.len(),
        is_census(all.take(i), dirs, was),
        0 <= at <= was.len(),
        forall|k: int|
            0 <= k < at ==> text::text_before((#[trigger] was[k]).path, all[i].folder),
        forall|k: int|
            at <= k < was.len() ==> !text::text_before((#[trigger] was[k]).path, all[i].folder),
        ({
            ||| {
                &&& at < was.len()
                &&& was[at].path == all[i].folder
                &&& is == was.update(
                    at,
                    FolderView {
                        file_count: (was[at].file_count + 1) as i64,
                        size_bytes: (was[at].size_bytes + all[i].size) as i64,
                        ..was[at]
                    },
                )
                &&& was[at].file_count < i64::MAX
                &&& i64::MIN <= was[at].size_bytes + all[i].size <= i64::MAX
            }
            ||| {
                &&& forall|k: int| 0 <= k < was.len() ==> (#[trigger] was[k]).path != all[i].folder
                &&& tally::count(all.take(i), in_folder(all[i].folder)) == 0
                &&& size_in(all.take(i), all[i].folder) == 0
                &&& is == was.insert(
                    at,
                    FolderView {
                        path: all[i].folder,
                        file_count: 1,
                        size_bytes: all[i].size,
                        churn: 0,
                    },
                )
            }
        }),
    ensures
        is_census(all.take(i + 1), dirs, is),
{
    let before = all.take(i);
    let after = all.take(i + 1);
    let folder = all[i].folder;
    assert(after.drop_last() =~= before);
    assert(after.last() == all[i]);
    assert forall|f: FolderView| #[trigger] tallied(before, f) && f.path != folder implies tallied(
        after,
        f,
    ) by {
        tally::lemma_count_step(all, in_folder(f.path), i);
    }
    tally::lemma_count_step(all, in_folder(folder), i);
    if at < was.len() && was[at].path == folder {
        assert(tallied(before, was[at]));
        assert(tallied(after, is[at]));
        assert forall|k: int| 0 <= k < is.len() implies tallied(after, #[trigger] is[k]) && met(
            dirs,
            is[k],
        ) by {
            if k != at {
                assert(is[k] == was[k]);
                assert(tallied(before, was[k]) && met(dirs, was[k]));
                text::lemma_text_order(folder, folder, folder);
                if k < at {
                    assert(text::text_before(was[k].path, was[at].path));
                } else {
                    assert(text::text_before(was[at].path, was[k].path));
                }
            }
        }
        assert forall|p: Seq<char>| #[trigger] lists(was, p) implies lists(is, p) by {
            let k = choose|k: int| 0 <= k < was.len() && (#[trigger] was[k]).path == p;
            assert(is[k].path == p);
        }
        assert forall|j: int| 0 <= j < after.len() implies lists(
            is,
            (#[trigger] after[j]).folder,
        ) by {
            if j < i {
                assert(after[j] == before[j]);
                assert(lists(was, before[j].folder));
            } else {
                assert(is[at].path == after[j].folder);
            }
        }
        assert forall|j: int| 0 <= j < dirs.len() implies lists(is, #[trigger] dirs[j]) by {
            assert(lists(was, dirs[j]));
        }
        assert(ascending(is)) by {
            assert forall|x: int, y: int|
                #![trigger is[x], is[y]]
                0 <= x < y < is.len() implies text::text_before(is[x].path, is[y].path) by {
                assert(is[x].path == was[x].path && is[y].path == was[y].path);
            }
        }
    } else {
        assert forall|k: int| 0 <= k < is.len() implies tallied(after, #[trigger] is[k]) && met(
            dirs,
            is[k],
        ) by {
            if k < at {
                assert(is[k] == was[k]);
                assert(tallied(before, was[k]) && met(dirs, was[k]));
            } else if k > at {
                assert(is[k] == was[k - 1]);
                assert(tallied(before, was[k - 1]) && met(dirs, was[k - 1]));
            }
        }
        assert(is == was.insert(at, is[at]));
        assert forall|j: int| 0 <= j < after.len() implies lists(
            is,
            (#[trigger] after[j]).folder,
        ) by {
            if j < i {
                assert(after[j] == before[j]);
                assert(lists(was, before[j].folder));
                lemma_insert_lists(was, is, at, before[j].folder);
            } else {
                assert(is[at].path == after[j].folder);
            }
        }
        assert forall|j: int| 0 <= j < dirs.len() implies lists(is, #[trigger] dirs[j]) by {
            lemma_insert_lists(was, is, at, dirs[j]);
        }
        lemma_insert_ascending(was, is, at, folder);
    }
}

/// Result of scanning a tree.
#[derive(Debug)]
pub struct WalkOutcome {
    /// Folders meeting `min_files`, sorted by path.
    pub folders: Vec<FolderStat>,
    /// Directories encountered that fell below `min_files`.
    pub excluded: usize,
}

/// Folders that hold files, and at least so many.
pub open spec fn enough(min: i64) -> spec_fn(FolderView) -> bool {
    |f: FolderView| f.file_count > 0 && f.file_count >= min
}

/// Folders with fewer files.
pub open spec fn thin(min: i64) -> spec_fn(FolderView) -> bool {
    |f: FolderView| f.file_count < min
}

/// Of the directories and files that a walk met: the folders that directly
/// contain at least `min_files` files, and how many directories contain fewer.
pub fn summarize(files: &Vec<FileEntry>, dirs: &Vec<String>, cfg: &Config) -> (r: WalkOutcome)
    requires
        summable(tally::views(files@)),
    ensures
        exists|t: Seq<FolderView>| #[trigger]
            is_census(tally::views(files@), crate::config::texts(dirs@), t) && tally::views(
                r.folders@,
            ) == t.filter(enough(cfg.scan.min_files as i64)) && r.excluded == tally::count(
                t,
                thin(cfg.scan.min_files as i64),
            ),
{
    let all = census(files, dirs);
    let ghost t = tally::views(all@);
    #[verifier::truncate]
    let min: i64 = cfg.scan.min_files as i64;
    let ghost keep = enough(min);
    let ghost drop = thin(min);
    let mut folders: Vec<FolderStat> = Vec::new();
    let mut excluded: usize = 0;
    let mut i: usize = 0;
    proof {
        reveal(Seq::filter);
        assert(t.take(0).filter(keep) =~= tally::views(folders@));
    }
    while i < all.len()
        invariant
            i <= all@.len(),
            t == tally::views(all@),
            keep == enough(min),
            drop == thin(min),
            tally::views(folders@) == t.take(i as int).filter(keep),
            excluded == tally::count(t.take(i as int), drop),
            excluded <= i,
        decreases all@.len() - i,
    {
        proof {
            reveal(Seq::filter);
            assert(t.take(i + 1).drop_last() =~= t.take(i as int));
            assert(t.take(i + 1).last() == all@[i as int]@);
        }
        if all[i].file_count < min {
            excluded = excluded + 1;
        } else if all[i].file_count > 0 {
            let ghost was = tally::views(folders@);
            folders.push(all[i].clone());
            assert(tally::views(folders@) =~= was.push(all@[i as int]@));
        }
        i = i + 1;
    }
    assert(t.take(all@.len() as int) =~= t);
    WalkOutcome { folders, excluded }
}

/// Names of a folder.
pub open spec fn naming(folder: Seq<char>) -> spec_fn(Seq<char>) -> bool {
    |t: Seq<char>| t == folder
}

/// How many changes fell into a folder.
pub open spec fn changes_in(touched: Seq<Seq<char>>, folder: Seq<char>) -> nat {
    tally::count(touched, naming(folder))
}

/// A folder with its churn: the number of changes that fell into it, if any.
pub open spec fn churned(f: FolderView, touched: Seq<Seq<char>>) -> FolderView {
    if changes_in(touched, f.path) > 0 {
        FolderView { churn: changes_in(touched, f.path) as i64, ..f }
    } else {
        f
    }
}

/// Compute a simple per-folder churn score: the number of recent file changes
/// attributed to each folder. `touched` holds the parent folder of each change;
/// a folder that none fell into keeps the churn that it has.
pub fn apply_churn(folders: &mut Vec<FolderStat>, touched: &Vec<String>)
    requires
        touched@.len() <= i64::MAX,
    ensures
        tally::views(final(folders)@) == tally::views(old(folders)@).map_values(
            |f: FolderView| churned(f, crate::config::texts(touched@)),
        ),
{
    let ghost names = crate::config::texts(touched@);
    let mut files: Vec<FileEntry> = Vec::new();
    let mut i: usize = 0;
    while i < touched.len()
        invariant
            i <= touched@.len(),
            names == crate::config::texts(touched@),
            files@.len() == i,
            forall|j: int|
                0 <= j < i ==> (#[trigger] files@[j])@ == (FileView { folder: names[j], size: 0 }),
        decreases touched@.len() - i,
    {
        files.push(FileEntry { folder: touched[i].clone(), size: 0 });
        i = i + 1;
    }
    let ghost fs = tally::views(files@);
    proof {
        assert forall|n: int, folder: Seq<char>| 0 <= n <= fs.len() implies i64::MIN
            <= #[trigger] size_in(fs.take(n), folder) <= i64::MAX by {
            lemma_sizeless(fs.take(n), folder);
        }
    }
    let no_dirs: Vec<String> = Vec::new();
    let counts = census(&files, &no_dirs);
    let ghost nothing = crate::config::texts(no_dirs@);
    let ghost cs = tally::views(counts@);
    let ghost was = tally::views(folders@);
    let ghost target = was.map_values(|f: FolderView| churned(f, names));
    let mut k: usize = 0;
    while k < folders.len()
        invariant
            k <= folders@.len(),
            folders@.len() == was.len(),
            was.len() == target.len(),
            target == was.map_values(|f: FolderView| churned(f, names)),
            names == crate::config::texts(touched@),
            fs == tally::views(files@),
            files@.len() == touched@.len(),
            touched@.len() <= i64::MAX,
            forall|j: int|
                0 <= j < files@.len() ==> (#[trigger] files@[j])@ == (FileView {
                    folder: names[j],
                    size: 0,
                }),
            cs == tally::views(counts@),
            is_census(fs, nothing, cs),
            nothing.len() == 0,
            forall|j: int| 0 <= j < k ==> (#[trigger] folders@[j])@ == target[j],
            forall|j: int| k <= j < folders@.len() ==> (#[trigger] folders@[j])@ == was[j],
        decreases folders@.len() - k,
    {
        let ghost folder = folders@[k as int]@.path;
        let at = position(&counts, folders[k].path.as_str());
        proof {
            tally::lemma_count_same(fs, in_folder(folder), names, naming(folder));
            tally::lemma_count_bound(names, naming(folder));
            assert(forall|j: int| 0 <= j < counts@.len() ==> cs[j] == counts@[j]@);
        }
        if holds(&counts, at, folders[k].path.as_str()) {
            assert(tallied(fs, cs[at as int]) && met(nothing, cs[at as int]));
            let mut f = folders[k].clone();
            f.churn = counts[at].file_count;
            folders.set(k, f);
            assert(folders@[k as int]@ =~= churned(was[k as int], names));
        } else {
            proof {
                lemma_not_at(cs, at as int, folder);
                lemma_absent(fs, nothing, cs, folder);
            }
        }
        k = k + 1;
    }
    assert(tally::views(folders@) =~= target);
}

proof fn lemma_sizeless(files: Seq<FileView>, folder: Seq<char>)
    requires
        forall|j: int| 0 <= j < files.len() ==> (#[trigger] files[j]).size == 0,
    ensures
        size_in(files, folder) == 0,
    decreases files.len(),
{
    if files.len() > 0 {
        let t = files.drop_last();
        assert forall|j: int| 0 <= j < t.len() implies (#[trigger] t[j]).size == 0 by {
            assert(t[j] == files[j]);
        }
        lemma_sizeless(t, folder);
        assert(files.last() == files[files.len() - 1]);
    }
}

// --- a scan --------------------------------------------------------------------------

/// What a scan reports of the files and directories that a walk met and the
/// folders that recent changes fell into: the folders that hold files and meet
/// `min_files`, in order, with their churn, and how many directories directly
/// hold fewer files than that.
pub open spec fn is_scan(
    files: Seq<FileView>,
    dirs: Seq<Seq<char>>,
    touched: Seq<Seq<char>>,
    min: i64,
    folders: Seq<FolderView>,
    excluded: int,
) -> bool {
    exists|t: Seq<FolderView>| #[trigger]
        is_census(files, dirs, t) && folders == t.filter(enough(min)).map_values(
            |f: FolderView| churned(f, touched),
        ) && excluded == tally::count(t, thin(min))
}

/// The folders of the files that a walk found, attributing each file's count and
/// size to its immediate parent directory, and each change that `touched` holds
/// to the folder that it names. `dirs` are the directories that the walk met.
pub fn scan(
    files: &Vec<FileEntry>,
    dirs: &Vec<String>,
    touched: &Vec<String>,
    cfg: &Config,
) -> (r: WalkOutcome)
    requires
        summable(tally::views(files@)),
        touched@.len() <= i64::MAX,
    ensures
        is_scan(
            tally::views(files@),
            crate::config::texts(dirs@),
            crate::config::texts(touched@),
            cfg.scan.min_files as i64,
            tally::views(r.folders@),
            r.excluded as int,
        ),
        ascending(tally::views(r.folders@)),
        r.folders@.len() <= files@.len(),
{
    let mut out = summarize(files, dirs, cfg);
    let ghost fs = tally::views(files@);
    let ghost ds = crate::config::texts(dirs@);
    let ghost min = cfg.scan.min_files as i64;
    let ghost kept = tally::views(out.folders@);
    apply_churn(&mut out.folders, touched);
    proof {
        let names = crate::config::texts(touched@);
        let t = choose|t: Seq<FolderView>| #[trigger]
            is_census(fs, ds, t) && kept == t.filter(enough(min)) && out.excluded
                == tally::count(t, thin(min));
        assert(is_census(fs, ds, t));
        lemma_scan_ascending(fs, ds, names, min, tally::views(out.folders@), out.excluded as int);
    }
    out
}

/// The folders of a scan stand in order, and are no more than the files.
pub proof fn lemma_scan_ascending(
    files: Seq<FileView>,
    dirs: Seq<Seq<char>>,
    touched: Seq<Seq<char>>,
    min: i64,
    folders: Seq<FolderView>,
    excluded: int,
)
    requires
        is_scan(files, dirs, touched, min, folders, excluded),
    ensures
        ascending(folders),
        folders.len() <= files.len(),
{
    let t = choose|t: Seq<FolderView>| #[trigger]
        is_census(files, dirs, t) && folders == t.filter(enough(min)).map_values(
            |f: FolderView| churned(f, touched),
        ) && excluded == tally::count(t, thin(min));
    let kept = t.filter(enough(min));
    tally::lemma_kept_pairs(
        t,
        enough(min),
        |a: FolderView, b: FolderView| text::text_before(a.path, b.path),
    );
    assert forall|i: int, j: int|
        #![trigger folders[i], folders[j]]
        0 <= i < j < folders.len() implies text::text_before(folders[i].path, folders[j].path) by {
        assert(folders[i].path == kept[i].path && folders[j].path == kept[j].path);
    }
    tally::lemma_kept(t, enough(min));
    assert forall|i: int| 0 <= i < folders.len() implies (#[trigger] folders[i]).file_count > 0
        && folders[i].file_count == tally::count(files, in_folder(folders[i].path)) by {
        assert(enough(min)(kept[i]));
        let j = choose|j: int| 0 <= j < t.len() && t[j] == kept[i];
        assert(tallied(files, t[j]));
    }
    lemma_census_size(files, folders);
}

/// There are no more folders with files than files.
proof fn lemma_census_size(files: Seq<FileView>, folders: Seq<FolderView>)
    requires
        ascending(folders),
        forall|i: int|
            0 <= i < folders.len() ==> (#[trigger] folders[i]).file_count > 0
                && folders[i].file_count == tally::count(files, in_folder(folders[i].path)),
    ensures
        folders.len() <= files.len(),
{
    // Each folder has a file of its own: the places of these are distinct.
    let at = |i: int|
        choose|j: int| 0 <= j < files.len() && (#[trigger] files[j]).folder == folders[i].path;
    let places = Seq::new(folders.len(), |i: int| at(i));
    assert forall|i: int| 0 <= i < folders.len() implies 0 <= #[trigger] places[i] < files.len()
        && files[places[i]].folder == folders[i].path by {
        let p = in_folder(folders[i].path);
        tally::lemma_count_zero(files, p);
        let j = choose|j: int| 0 <= j < files.len() && p(#[trigger] files[j]);
        assert(files[j].folder == folders[i].path);
    }
    assert(places.no_duplicates()) by {
        assert forall|i: int, j: int|
            0 <= i < places.len() && 0 <= j < places.len() && i != j implies places[i]
            != places[j] by {
            text::lemma_text_order(folders[i].path, folders[i].path, folders[i].path);
            if i < j {
                assert(text::text_before(folders[i].path, folders[j].path));
            } else {
                assert(text::text_before(folders[j].path, folders[i].path));
            }
        }
    }
    lemma_distinct_below(places, files.len() as int);
}

/// Distinct numbers below `n` are at most `n`.
proof fn lemma_distinct_below(s: Seq<int>, n: int)
    requires
        n >= 0,
        s.no_duplicates(),
        forall|i: int| 0 <= i < s.len() ==> 0 <= #[trigger] s[i] < n,
    ensures
        s.len() <= n,
{
    s.unique_seq_to_set();
    let all = vstd::set_lib::set_int_range(0, n);
    vstd::set_lib::lemma_int_range(0, n);
    assert(s.to_set().subset_of(all)) by {
        assert forall|x: int| #[trigger] s.to_set().contains(x) implies all.contains(x) by {
            let i = choose|i: int| 0 <= i < s.len() && s[i] == x;
            assert(0 <= s[i] < n);
        }
    }
    vstd::set_lib::lemma_len_subset(s.to_set(), all);
}

// --- laws ----------------------------------------------------------------------------

proof fn lemma_unslashed(path: Seq<char>)
    ensures
        unslashed(path).len() <= path.len(),
        unslashed(path) == path.take(unslashed(path).len() as int),
        unslashed(path).len() > 0 ==> unslashed(path).last() != '/',
        unslashed(path.push('/')) == unslashed(path),
    decreases path.len(),
{
    assert(path.push('/').drop_last() =~= path);
    if path.len() > 0 && path.last() == '/' {
        lemma_unslashed(path.drop_last());
        let n = unslashed(path).len() as int;
        assert(path.drop_last().take(n) =~= path.take(n));
    } else {
        assert(path.take(path.len() as int) =~= path);
    }
}

proof fn lemma_undotted(path: Seq<char>)
    ensures
        !dotted(undotted(path)),
        undotted(path).len() <= path.len(),
        forall|i: int|
            0 <= i < undotted(path).len() ==> #[trigger] undotted(path)[i] == path[path.len()
                - undotted(path).len() + i],
    decreases path.len(),
{
    if dotted(path) {
        lemma_undotted(path.skip(2));
    }
}

/// A slash at the end makes no difference once the prefixes are gone.
proof fn lemma_undotted_push(path: Seq<char>)
    ensures
        or_dot(unslashed(undotted(path.push('/')))) == or_dot(unslashed(undotted(path))),
    decreases path.len(),
{
    let t = path.push('/');
    lemma_unslashed(undotted(path));
    if dotted(path) {
        assert(t[0] == path[0] && t[1] == path[1]);
        assert(t.skip(2) =~= path.skip(2).push('/'));
        lemma_undotted_push(path.skip(2));
    } else if path =~= seq!['.'] {
        assert(t.skip(2) =~= Seq::<char>::empty());
        assert(undotted(t) == undotted(Seq::<char>::empty()));
        assert(unslashed(seq!['.']) == seq!['.']);
    } else {
        assert(!dotted(t)) by {
            if dotted(t) {
                assert(t[0] == path[0]);
                if path.len() >= 2 {
                    assert(t[1] == path[1]);
                }
            }
        }
    }
}

/// The stored form of a path is never empty, holds no backslash, does not begin
/// with `./` and does not end with a slash.
pub proof fn law_stored_form_is_clean(path: Seq<char>)
    ensures
        stored_form(path).len() > 0,
        !dotted(stored_form(path)),
        stored_form(path).last() != '/',
        forall|i: int| 0 <= i < stored_form(path).len() ==> #[trigger] stored_form(path)[i] != '\\',
{
    let base = undotted(slashed(path));
    lemma_undotted(slashed(path));
    lemma_unslashed(base);
    assert forall|i: int| 0 <= i < base.len() implies #[trigger] base[i] != '\\' by {}
}

/// A path written with backslashes, one with a slash at its end, and one with a
/// `./` before it, mean the same folder as the path without.
pub proof fn law_spellings_of_a_folder(path: Seq<char>)
    ensures
        stored_form(slashed(path)) == stored_form(path),
        stored_form(path.push('/')) == stored_form(path),
        stored_form(seq!['.', '/'] + path) == stored_form(path),
        stored_form(Seq::<char>::empty()) == seq!['.'],
        stored_form(seq!['.']) == seq!['.'],
{
    assert(slashed(slashed(path)) =~= slashed(path));
    let s = slashed(path);
    assert(slashed(path.push('/')) =~= s.push('/'));
    lemma_undotted_push(s);
    let d = slashed(seq!['.', '/'] + path);
    assert(d =~= seq!['.', '/'] + s);
    assert(d.skip(2) =~= s);
    assert(undotted(d) == undotted(s));
    assert(slashed(Seq::<char>::empty()) =~= Seq::<char>::empty());
    assert(slashed(seq!['.']) =~= seq!['.']);
}

/// A stored form is its own stored form.
pub proof fn law_stored_form_is_stable(path: Seq<char>)
    ensures
        stored_form(stored_form(path)) == stored_form(path),
{
    law_stored_form_is_clean(path);
    let f = stored_form(path);
    assert(slashed(f) =~= f);
    assert(undotted(f) == f);
    assert(unslashed(f) == f);
}

/// A path under the scanned root is recorded in stored form, if it is spelled
/// without a `./` before it and a slash after it.
pub proof fn law_scanned_paths_are_in_stored_form(rel: Seq<char>, full: Seq<char>)
    requires
        !dotted(slashed(rel)),
        unslashed(slashed(rel)) == slashed(rel),
    ensures
        stored_form(relative_form(Some(rel), full)) == relative_form(Some(rel), full),
{
    let s = slashed(rel);
    assert(slashed(s) =~= s);
    if s.len() == 0 {
        law_spellings_of_a_folder(rel);
    }
}

/// Under the default, which asks for one file, no folder of a file is left out,
/// and what counts as excluded is exactly the directories without a file.
pub proof fn law_nothing_is_left_out_by_default(
    files: Seq<FileView>,
    dirs: Seq<Seq<char>>,
    touched: Seq<Seq<char>>,
    folders: Seq<FolderView>,
    excluded: int,
)
    requires
        is_scan(files, dirs, touched, 1, folders, excluded),
    ensures
        forall|j: int| 0 <= j < files.len() ==> lists(folders, (#[trigger] files[j]).folder),
        excluded == 0 <==> forall|j: int|
            0 <= j < dirs.len() ==> lists(folders, #[trigger] dirs[j]),
{
    let t = choose|t: Seq<FolderView>| #[trigger]
        is_census(files, dirs, t) && folders == t.filter(enough(1)).map_values(
            |f: FolderView| churned(f, touched),
        ) && excluded == tally::count(t, thin(1));
    let kept = t.filter(enough(1));
    tally::lemma_kept(t, enough(1));
    tally::lemma_count_zero(t, thin(1));
    assert forall|i: int| 0 <= i < t.len() && (#[trigger] t[i]).file_count > 0 implies lists(
        folders,
        t[i].path,
    ) by {
        assert(enough(1)(t[i]));
        assert(kept.contains(t[i]));
        let k = choose|k: int| 0 <= k < kept.len() && kept[k] == t[i];
        assert(folders[k].path == t[i].path);
    }
    assert forall|j: int| 0 <= j < files.len() implies lists(
        folders,
        (#[trigger] files[j]).folder,
    ) by {
        let i = choose|i: int| 0 <= i < t.len() && (#[trigger] t[i]).path == files[j].folder;
        assert(tallied(files, t[i]));
        tally::lemma_count_zero(files, in_folder(t[i].path));
        assert(in_folder(t[i].path)(files[j]));
    }
    if excluded == 0 {
        assert forall|j: int| 0 <= j < dirs.len() implies lists(folders, #[trigger] dirs[j]) by {
            let i = choose|i: int| 0 <= i < t.len() && (#[trigger] t[i]).path == dirs[j];
            assert(!thin(1)(t[i]));
        }
    } else {
        let i = choose|i: int| 0 <= i < t.len() && thin(1)(#[trigger] t[i]);
        assert(tallied(files, t[i]) && met(dirs, t[i]));
        let j = choose|j: int| 0 <= j < dirs.len() && dirs[j] == t[i].path;
        if lists(folders, dirs[j]) {
            let k = choose|k: int| 0 <= k < folders.len() && (#[trigger] folders[k]).path == dirs[j];
            assert(enough(1)(kept[k]));
            let m = choose|m: int| 0 <= m < t.len() && t[m] == kept[k];
            text::lemma_text_order(t[i].path, t[i].path, t[i].path);
            if m < i {
                assert(text::text_before(t[m].path, t[i].path));
            } else if i < m {
                assert(text::text_before(t[i].path, t[m].path));
            }
        }
        assert(!lists(folders, dirs[j]));
    }
}

/// A directory that the walk met and that directly holds fewer files than are
/// asked for counts as excluded, and is not among the folders.
pub proof fn law_thin_directories_are_excluded(
    files: Seq<FileView>,
    dirs: Seq<Seq<char>>,
    touched: Seq<Seq<char>>,
    min: i64,
    folders: Seq<FolderView>,
    excluded: int,
    dir: Seq<char>,
)
    requires
        is_scan(files, dirs, touched, min, folders, excluded),
        dirs.contains(dir),
        tally::count(files, in_folder(dir)) < min,
    ensures
        excluded > 0,
        !lists(folders, dir),
{
    let t = choose|t: Seq<FolderView>| #[trigger]
        is_census(files, dirs, t) && folders == t.filter(enough(min)).map_values(
            |f: FolderView| churned(f, touched),
        ) && excluded == tally::count(t, thin(min));
    let j = choose|j: int| 0 <= j < dirs.len() && dirs[j] == dir;
    assert(lists(t, dirs[j]));
    let i = choose|i: int| 0 <= i < t.len() && (#[trigger] t[i]).path == dir;
    assert(tallied(files, t[i]));
    tally::lemma_count_zero(t, thin(min));
    assert(thin(min)(t[i]));
    let kept = t.filter(enough(min));
    tally::lemma_kept(t, enough(min));
    if lists(folders, dir) {
        let k = choose|k: int| 0 <= k < folders.len() && (#[trigger] folders[k]).path == dir;
        assert(enough(min)(kept[k]));
        let m = choose|m: int| 0 <= m < t.len() && t[m] == kept[k];
        assert(tallied(files, t[m]));
    }
}

/// What a scan reports is determined by what the walk met.
pub proof fn law_one_scan(
    files: Seq<FileView>,
    dirs: Seq<Seq<char>>,
    touched: Seq<Seq<char>>,
    min: i64,
    folders: Seq<FolderView>,
    excluded: int,
    folders2: Seq<FolderView>,
    excluded2: int,
)
    requires
        is_scan(files, dirs, touched, min, folders, excluded),
        is_scan(files, dirs, touched, min, folders2, excluded2),
    ensures
        folders == folders2,
        excluded == excluded2,
{
    let t = choose|t: Seq<FolderView>| #[trigger]
        is_census(files, dirs, t) && folders == t.filter(enough(min)).map_values(
            |f: FolderView| churned(f, touched),
        ) && excluded == tally::count(t, thin(min));
    let t2 = choose|t: Seq<FolderView>| #[trigger]
        is_census(files, dirs, t) && folders2 == t.filter(enough(min)).map_values(
            |f: FolderView| churned(f, touched),
        ) && excluded2 == tally::count(t, thin(min));
    law_one_census(files, dirs, t, t2);
}

/// A census is determined by its files and directories.
pub proof fn law_one_census(
    files: Seq<FileView>,
    dirs: Seq<Seq<char>>,
    a: Seq<FolderView>,
    b: Seq<FolderView>,
)
    requires
        is_census(files, dirs, a),
        is_census(files, dirs, b),
    ensures
        a == b,
{
    lemma_census_within(files, dirs, a, b);
    lemma_census_within(files, dirs, b, a);
    lemma_same_ascending(a, b);
}

/// Every folder of one census is in the other.
proof fn lemma_census_within(
    files: Seq<FileView>,
    dirs: Seq<Seq<char>>,
    a: Seq<FolderView>,
    b: Seq<FolderView>,
)
    requires
        is_census(files, dirs, a),
        is_census(files, dirs, b),
    ensures
        forall|i: int| 0 <= i < a.len() ==> b.contains(#[trigger] a[i]),
{
    assert forall|i: int| 0 <= i < a.len() implies b.contains(#[trigger] a[i]) by {
        assert(tallied(files, a[i]) && met(dirs, a[i]));
        let p = in_folder(a[i].path);
        tally::lemma_count_zero(files, p);
        if a[i].file_count > 0 {
            let j = choose|j: int| 0 <= j < files.len() && p(#[trigger] files[j]);
            assert(lists(b, files[j].folder));
        } else {
            let j = choose|j: int| 0 <= j < dirs.len() && dirs[j] == a[i].path;
            assert(lists(b, dirs[j]));
        }
        let k = choose|k: int| 0 <= k < b.len() && (#[trigger] b[k]).path == a[i].path;
        assert(tallied(files, b[k]));
        assert(b[k] =~= a[i]);
    }
}

/// Two ascending lists of the same folders are the same.
proof fn lemma_same_ascending(a: Seq<FolderView>, b: Seq<FolderView>)
    requires
        ascending(a),
        ascending(b),
        forall|i: int| 0 <= i < a.len() ==> b.contains(#[trigger] a[i]),
        forall|i: int| 0 <= i < b.len() ==> a.contains(#[trigger] b[i]),
    ensures
        a == b,
    decreases a.len(),
{
    if a.len() == 0 {
        if b.len() > 0 {
            assert(a.contains(b[0]));
        }
        assert(a =~= b);
    } else {
        assert(b.contains(a[0]));
        let n = a.len() - 1;
        let m = b.len() - 1;
        let i = choose|i: int| 0 <= i < b.len() && b[i] == a[n];
        assert(a.contains(b[m]));
        let j = choose|j: int| 0 <= j < a.len() && a[j] == b[m];
        text::lemma_text_order(a[n].path, b[m].path, a[n].path);
        if i < m {
            assert(text::text_before(b[i].path, b[m].path));
            if j < n {
                assert(text::text_before(a[j].path, a[n].path));
            }
        }
        assert(i == m);
        let a1 = a.drop_last();
        let b1 = b.drop_last();
        assert(ascending(a1)) by {
            assert forall|x: int, y: int|
                #![trigger a1[x], a1[y]]
                0 <= x < y < a1.len() implies text::text_before(a1[x].path, a1[y].path) by {
                assert(a1[x] == a[x] && a1[y] == a[y]);
            }
        }
        assert(ascending(b1)) by {
            assert forall|x: int, y: int|
                #![trigger b1[x], b1[y]]
                0 <= x < y < b1.len() implies text::text_before(b1[x].path, b1[y].path) by {
                assert(b1[x] == b[x] && b1[y] == b[y]);
            }
        }
        assert forall|x: int| 0 <= x < a1.len() implies b1.contains(#[trigger] a1[x]) by {
            assert(a1[x] == a[x]);
            assert(b.contains(a[x]));
            let y = choose|y: int| 0 <= y < b.len() && b[y] == a[x];
            assert(text::text_before(a[x].path, a[n].path));
            text::lemma_text_order(a[n].path, a[n].path, a[n].path);
            assert(y != m);
            assert(b1[y] == a1[x]);
        }
        assert forall|x: int| 0 <= x < b1.len() implies a1.contains(#[trigger] b1[x]) by {
            assert(b1[x] == b[x]);
            assert(a.contains(b[x]));
            let y = choose|y: int| 0 <= y < a.len() && a[y] == b[x];
            assert(text::text_before(b[x].path, b[m].path));
            text::lemma_text_order(b[m].path, b[m].path, b[m].path);
            assert(y != n);
            assert(a1[y] == b1[x]);
        }
        lemma_same_ascending(a1, b1);
        assert(a =~= a1.push(a[n]));
        assert(b =~= b1.push(b[m]));
    }
}

/// A path that is spelled cleanly is kept to the letter: one that is not empty,
/// holds no backslash, does not begin with `./` and does not end with a slash.
pub proof fn law_a_clean_path_is_kept(path: Seq<char>)
    requires
        path.len() > 0,
        path.last() != '/',
        !(path.len() >= 2 && path[0] == '.' && path[1] == '/'),
        forall|i: int| 0 <= i < path.len() ==> #[trigger] path[i] != '\\',
    ensures
        stored_form(path) == path,
{
    assert(slashed(path) =~= path);
}

/// A backslash anywhere in a path stands for a slash, and no other character for
/// another one.
pub proof fn law_a_backslash_is_a_slash(path: Seq<char>, full: Seq<char>, i: int)
    requires
        0 <= i < path.len(),
    ensures
        stored_form(path.update(i, '\\')) == stored_form(path.update(i, '/')),
        relative_form(Some(path), full).len() == path.len(),
        relative_form(Some(path), full)[i] == if path[i] == '\\' {
            '/'
        } else {
            path[i]
        },
        relative_form(None, path).len() == path.len(),
        relative_form(None, path)[i] == if path[i] == '\\' {
            '/'
        } else {
            path[i]
        },
{
    assert(slashed(path.update(i, '\\')) =~= slashed(path.update(i, '/')));
}

/// The scanned root is ".".
pub proof fn law_the_root_is_a_dot(full: Seq<char>)
    ensures
        relative_form(Some(Seq::<char>::empty()), full) == "."@,
        relative_form(None, Seq::<char>::empty()) == Seq::<char>::empty(),
{
    reveal_strlit(".");
    assert("."@ =~= seq!['.']);
    assert(slashed(Seq::<char>::empty()) =~= Seq::<char>::empty());
}

/// The files that a folder directly holds.
pub open spec fn files_of(files: Seq<FileView>, path: Seq<char>) -> Seq<FileView> {
    files.filter(|f: FileView| f.folder == path)
}

/// The sizes of some files together.
pub open spec fn sum_of(files: Seq<FileView>) -> int {
    files.fold_left(0int, |sum: int, f: FileView| sum + f.size)
}

/// The folder's signals are those of the files that it directly holds and of the
/// changes that fell into it.
pub open spec fn is_measured(
    files: Seq<FileView>,
    touched: Seq<Seq<char>>,
    f: FolderView,
) -> bool {
    &&& f.file_count == files_of(files, f.path).len()
    &&& f.size_bytes == sum_of(files_of(files, f.path))
    &&& f.churn == touched.filter(|t: Seq<char>| t == f.path).len()
}

/// Every folder that a file lies in, and every directory.
pub open spec fn all_places(files: Seq<FileView>, dirs: Seq<Seq<char>>) -> Set<Seq<char>> {
    files.map_values(|f: FileView| f.folder).to_set().union(dirs.to_set())
}

/// A scan reports each folder once, by path, with the number and the size of the
/// files that it directly holds and the number of changes that fell into it; it
/// reports a folder exactly if that holds a file and at least as many as are asked
/// for. What it meets and does not report it counts.
pub proof fn law_a_scan_measures_every_folder(
    files: Seq<FileView>,
    dirs: Seq<Seq<char>>,
    touched: Seq<Seq<char>>,
    min: i64,
    folders: Seq<FolderView>,
    excluded: int,
)
    requires
        is_scan(files, dirs, touched, min, folders, excluded),
        files.len() <= i64::MAX,
        touched.len() <= i64::MAX,
    ensures
        forall|i: int, j: int|
            #![trigger folders[i], folders[j]]
            0 <= i < j < folders.len() ==> text::text_before(folders[i].path, folders[j].path),
        forall|i: int|
            0 <= i < folders.len() ==> is_measured(files, touched, #[trigger] folders[i])
                && folders[i].file_count >= 1 && folders[i].file_count >= min,
        forall|path: Seq<char>|
            1 <= (#[trigger] files_of(files, path)).len() && min <= files_of(files, path).len()
                ==> exists|i: int| 0 <= i < folders.len() && (#[trigger] folders[i]).path == path,
        excluded >= 0,
        min >= 1 ==> folders.len() + excluded == all_places(files, dirs).len(),
        min < 1 ==> excluded == 0,
{
    lemma_scan_ascending(files, dirs, touched, min, folders, excluded);
    let t = choose|t: Seq<FolderView>| #[trigger]
        is_census(files, dirs, t) && folders == t.filter(enough(min)).map_values(
            |f: FolderView| churned(f, touched),
        ) && excluded == tally::count(t, thin(min));
    let kept = t.filter(enough(min));
    tally::lemma_kept(t, enough(min));
    assert forall|i: int| 0 <= i < folders.len() implies is_measured(
        files,
        touched,
        #[trigger] folders[i],
    ) && folders[i].file_count >= 1 && folders[i].file_count >= min by {
        assert(enough(min)(kept[i]));
        let j = choose|j: int| 0 <= j < t.len() && t[j] == kept[i];
        assert(tallied(files, t[j]));
        assert(folders[i] == churned(t[j], touched));
        lemma_files_of(files, t[j].path);
        let p = |x: Seq<char>| x == t[j].path;
        assert(naming(t[j].path) =~= p);
        tally::lemma_filter_counts(touched, p);
        tally::lemma_count_bound(touched, p);
    }
    assert forall|path: Seq<char>|
        1 <= (#[trigger] files_of(files, path)).len() && min <= files_of(
            files,
            path,
        ).len() implies exists|i: int|
        0 <= i < folders.len() && (#[trigger] folders[i]).path == path by {
        lemma_files_of(files, path);
        tally::lemma_count_zero(files, in_folder(path));
        let j = choose|j: int| 0 <= j < files.len() && in_folder(path)(#[trigger] files[j]);
        assert(lists(t, files[j].folder));
        let m = choose|m: int| 0 <= m < t.len() && (#[trigger] t[m]).path == path;
        assert(tallied(files, t[m]));
        assert(enough(min)(t[m]));
        let k = choose|k: int| 0 <= k < kept.len() && kept[k] == t[m];
        assert(folders[k].path == path);
    }
    if min >= 1 {
        let any = |f: FolderView| true;
        tally::lemma_count_split(t, enough(min), thin(min), t, any);
        tally::lemma_count_all(t, any);
        tally::lemma_filter_counts(t, enough(min));
        lemma_all_places(files, dirs, t);
    } else {
        assert forall|i: int| 0 <= i < t.len() implies !thin(min)(#[trigger] t[i]) by {
            assert(tallied(files, t[i]));
        }
        tally::lemma_count_zero(t, thin(min));
    }
}

/// The files of a folder are as many, and as large, as the census says.
proof fn lemma_files_of(files: Seq<FileView>, path: Seq<char>)
    ensures
        files_of(files, path).len() == tally::count(files, in_folder(path)),
        sum_of(files_of(files, path)) == size_in(files, path),
    decreases files.len(),
{
    reveal(Seq::filter);
    if files.len() > 0 {
        let p = |f: FileView| f.folder == path;
        let rest = files.drop_last();
        lemma_files_of(rest, path);
        if files.last().folder == path {
            let a = files_of(rest, path);
            assert(files_of(files, path) == a.push(files.last()));
            assert(a.push(files.last()).drop_last() =~= a);
        } else {
            assert(files_of(files, path) == files_of(rest, path));
        }
    }
}

/// A census has one row for every place.
proof fn lemma_all_places(files: Seq<FileView>, dirs: Seq<Seq<char>>, t: Seq<FolderView>)
    requires
        is_census(files, dirs, t),
    ensures
        t.len() == all_places(files, dirs).len(),
{
    let names = t.map_values(|f: FolderView| f.path);
    assert(names.no_duplicates()) by {
        assert forall|i: int, j: int|
            0 <= i < names.len() && 0 <= j < names.len() && i != j implies names[i] != names[j] by {
            text::lemma_text_order(t[i].path, t[i].path, t[i].path);
            if i < j {
                assert(text::text_before(t[i].path, t[j].path));
            } else {
                assert(text::text_before(t[j].path, t[i].path));
            }
        }
    }
    names.unique_seq_to_set();
    let held = files.map_values(|f: FileView| f.folder);
    let all = all_places(files, dirs);
    assert forall|p: Seq<char>| #[trigger] names.to_set().contains(p) <==> all.contains(p) by {
        if names.contains(p) {
            let i = choose|i: int| 0 <= i < names.len() && names[i] == p;
            assert(tallied(files, t[i]) && met(dirs, t[i]));
            if !dirs.contains(p) {
                tally::lemma_count_zero(files, in_folder(p));
                let j = choose|j: int| 0 <= j < files.len() && in_folder(p)(#[trigger] files[j]);
                assert(held[j] == p);
            }
        }
        if held.contains(p) {
            let j = choose|j: int| 0 <= j < held.len() && held[j] == p;
            assert(lists(t, files[j].folder));
            let i = choose|i: int| 0 <= i < t.len() && (#[trigger] t[i]).path == p;
            assert(names[i] == p);
        }
        if dirs.contains(p) {
            let j = choose|j: int| 0 <= j < dirs.len() && dirs[j] == p;
            assert(lists(t, dirs[j]));
            let i = choose|i: int| 0 <= i < t.len() && (#[trigger] t[i]).path == p;
            assert(names[i] == p);
        }
    }
    assert(names.to_set() =~= all);
}

/// Churn is counted where changes fell, kept where none did, and nothing else of a
/// folder is touched.
pub proof fn law_churn_counts_the_changes(f: FolderView, touched: Seq<Seq<char>>)
    requires
        touched.len() <= i64::MAX,
    ensures
        churned(f, touched).path == f.path,
        churned(f, touched).file_count == f.file_count,
        churned(f, touched).size_bytes == f.size_bytes,
        ({
            let n = touched.filter(|t: Seq<char>| t == f.path).len();
            &&& n > 0 ==> churned(f, touched).churn == n
            &&& n == 0 ==> churned(f, touched).churn == f.churn
        }),
{
    let p = |t: Seq<char>| t == f.path;
    assert(naming(f.path) =~= p);
    tally::lemma_filter_counts(touched, p);
    tally::lemma_count_bound(touched, p);
}

/// A file is taken as it was found.
pub proof fn law_a_file_is_taken_as_found(f: FileEntry)
    ensures
        f@.folder == f.folder@,
        f@.size == f.size,
{
}

}
