//! Planning a backup run. Given the source subfolders (each with its files
//! and their modification times) and the set of names already recorded as
//! processed, the planner decides which folders to scan, which copy actions
//! to perform, which destination buckets those actions need, and what the
//! processed-set looks like afterwards. It does no filesystem work itself.

use vstd::prelude::*;
use crate::bucket::{bucket_name, bucket_of, mtime_ok};
use crate::marker::{dedup_all, dedup_from, dedup_push, distinct_lines, insert_unique, join_lines, split_lines, str_views};

verus! {

/// A file in a source subfolder: its name and its modification time in
/// seconds since the Unix epoch.
#[derive(Debug)]
pub struct FileEntry {
    pub name: String,
    pub mtime: u64,
}

pub struct FileEntryView {
    pub name: Seq<char>,
    pub mtime: u64,
}

impl View for FileEntry {
    type V = FileEntryView;

    open spec fn view(&self) -> FileEntryView {
        FileEntryView { name: self.name@, mtime: self.mtime }
    }
}

/// An immediate subdirectory of the source root with its files.
#[derive(Debug)]
pub struct Subfolder {
    pub name: String,
    pub files: Vec<FileEntry>,
}

pub struct SubfolderView {
    pub name: Seq<char>,
    pub files: Seq<FileEntryView>,
}

impl View for Subfolder {
    type V = SubfolderView;

    open spec fn view(&self) -> SubfolderView {
        SubfolderView { name: self.name@, files: self.files@.map_values(|f: FileEntry| f@) }
    }
}

/// One copy to perform: the file `file` of subfolder `subfolder` goes to the
/// destination bucket directory `bucket`.
#[derive(Debug)]
pub struct CopyAction {
    pub subfolder: String,
    pub file: String,
    pub bucket: String,
}

pub struct CopyActionView {
    pub subfolder: Seq<char>,
    pub file: Seq<char>,
    pub bucket: Seq<char>,
}

impl View for CopyAction {
    type V = CopyActionView;

    open spec fn view(&self) -> CopyActionView {
        CopyActionView { subfolder: self.subfolder@, file: self.file@, bucket: self.bucket@ }
    }
}

/// Everything one run does: the copies, the distinct buckets they need, and
/// the processed-set to record afterwards.
#[derive(Debug)]
pub struct Plan {
    pub actions: Vec<CopyAction>,
    pub buckets: Vec<String>,
    pub new_processed: Vec<String>,
}

/// A file whose modification time has no representable calendar date: the
/// run cannot assign it a bucket.
#[derive(Debug)]
pub struct TimestampError {
    pub subfolder: String,
    pub file: String,
    pub mtime: u64,
}

/// The views of a sequence of subfolders.
pub open spec fn folder_views(v: Seq<Subfolder>) -> Seq<SubfolderView> {
    v.map_values(|f: Subfolder| f@)
}

/// The views of a sequence of copy actions.
pub open spec fn action_views(v: Seq<CopyAction>) -> Seq<CopyActionView> {
    v.map_values(|a: CopyAction| a@)
}

/// A folder is scanned when its name is not in the processed set.
pub open spec fn is_scanned(f: SubfolderView, processed: Seq<Seq<char>>) -> bool {
    !processed.contains(f.name)
}

/// The copy actions of one scanned folder: one per file, in order, each with
/// the bucket of that file's modification time.
pub open spec fn folder_actions(f: SubfolderView) -> Seq<CopyActionView> {
    f.files.map_values(
        |file: FileEntryView|
            CopyActionView { subfolder: f.name, file: file.name, bucket: bucket_of(file.mtime) },
    )
}

/// The copy actions of a run: those of every scanned folder, in order.
pub open spec fn plan_actions(folders: Seq<SubfolderView>, processed: Seq<Seq<char>>) -> Seq<
    CopyActionView,
>
    decreases folders.len(),
{
    if folders.len() == 0 {
        Seq::empty()
    } else {
        (if is_scanned(folders[0], processed) {
            folder_actions(folders[0])
        } else {
            Seq::empty()
        }) + plan_actions(folders.drop_first(), processed)
    }
}

/// Every file of a folder has a representable modification time.
pub open spec fn folder_ok(f: SubfolderView) -> bool {
    forall|j: int| 0 <= j < f.files.len() ==> mtime_ok(#[trigger] f.files[j].mtime)
}

/// Every scanned folder is free of unrepresentable modification times.
pub open spec fn scan_ok(folders: Seq<SubfolderView>, processed: Seq<Seq<char>>) -> bool {
    forall|i: int|
        0 <= i < folders.len() && is_scanned(#[trigger] folders[i], processed) ==> folder_ok(
            folders[i],
        )
}

/// The processed set after the run: every folder name added once.
pub open spec fn processed_after(processed: Seq<Seq<char>>, folders: Seq<SubfolderView>) -> Seq<
    Seq<char>,
>
    decreases folders.len(),
{
    if folders.len() == 0 {
        processed
    } else {
        processed_after(dedup_push(processed, folders[0].name), folders.drop_first())
    }
}

/// The distinct buckets the actions need, in order of first use.
pub open spec fn buckets_of(actions: Seq<CopyActionView>) -> Seq<Seq<char>> {
    dedup_all(actions.map_values(|a: CopyActionView| a.bucket))
}

/// Whether `v` holds a string equal to `x`.
pub fn contains_str(v: &Vec<String>, x: &String) -> (r: bool)
    ensures
        r == str_views(v@).contains(x@),
{
    let mut i: usize = 0;
    while i < v.len()
        invariant
            i <= v@.len(),
            forall|k: int| 0 <= k < i ==> v@[k]@ != x@,
        decreases v@.len() - i,
    {
        if v[i] == *x {
            proof {
                assert(str_views(v@)[i as int] == x@);
            }
            return true;
        }
        i = i + 1;
    }
    proof {
        assert forall|k: int| 0 <= k < str_views(v@).len() implies str_views(v@)[k] != x@ by {
            assert(str_views(v@)[k] == v@[k]@);
        }
    }
    false
}

/// Plans one run. Folders whose names are in `processed` are skipped; each
/// file of every other folder becomes one copy action, bucketed by its
/// modification time; the new processed set adds every folder name once. An
/// unrepresentable modification time in a scanned folder fails the run and
/// names the offending file.
pub fn plan_backup(folders: &Vec<Subfolder>, processed: &Vec<String>) -> (r: Result<
    Plan,
    TimestampError,
>)
    ensures
        r is Ok <==> scan_ok(folder_views(folders@), str_views(processed@)),
        r matches Ok(p) ==> action_views(p.actions@) == plan_actions(
            folder_views(folders@),
            str_views(processed@),
        ),
        r matches Ok(p) ==> str_views(p.new_processed@) == processed_after(
            str_views(processed@),
            folder_views(folders@),
        ),
        r matches Ok(p) ==> str_views(p.buckets@) == buckets_of(
            plan_actions(folder_views(folders@), str_views(processed@)),
        ) && distinct_lines(str_views(p.buckets@)),
        r matches Ok(p) ==> (distinct_lines(str_views(processed@)) ==> distinct_lines(
            str_views(p.new_processed@),
        )),
        r matches Err(e) ==> !mtime_ok(e.mtime) && exists|i: int, j: int|
            0 <= i < folder_views(folders@).len() && is_scanned(
                #[trigger] folder_views(folders@)[i],
                str_views(processed@),
            ) && 0 <= j < folder_views(folders@)[i].files.len() && (#[trigger] folder_views(
                folders@,
            )[i].files[j]) == (FileEntryView { name: e.file@, mtime: e.mtime }) && folder_views(
                folders@,
            )[i].name == e.subfolder@,
{
    let ghost fv = folder_views(folders@);
    let ghost procs = str_views(processed@);
    let mut actions: Vec<CopyAction> = Vec::new();
    let mut buckets: Vec<String> = Vec::new();
    let mut new_processed: Vec<String> = Vec::new();
    let mut i: usize = 0;
    while i < processed.len()
        invariant
            i <= processed@.len(),
            new_processed@.len() == i,
            forall|k: int| 0 <= k < i ==> #[trigger] new_processed@[k]@ == processed@[k]@,
        decreases processed@.len() - i,
    {
        new_processed.push(processed[i].clone());
        i = i + 1;
    }
    proof {
        assert(str_views(new_processed@) =~= procs);
        assert(str_views(buckets@) =~= Seq::<Seq<char>>::empty());
        assert(action_views(actions@) =~= Seq::<CopyActionView>::empty());
        assert(fv.skip(0) =~= fv);
        assert(action_views(actions@).map_values(|a: CopyActionView| a.bucket)
            =~= Seq::<Seq<char>>::empty());
    }
    let mut fi: usize = 0;
    while fi < folders.len()
        invariant
            fi <= folders@.len(),
            fv == folder_views(folders@),
            procs == str_views(processed@),
            action_views(actions@) + plan_actions(fv.skip(fi as int), procs) == plan_actions(
                fv,
                procs,
            ),
            str_views(buckets@) == dedup_all(
                action_views(actions@).map_values(|a: CopyActionView| a.bucket),
            ),
            distinct_lines(str_views(buckets@)),
            processed_after(str_views(new_processed@), fv.skip(fi as int)) == processed_after(
                procs,
                fv,
            ),
            distinct_lines(procs) ==> distinct_lines(str_views(new_processed@)),
            forall|k: int|
                0 <= k < fi && is_scanned(#[trigger] fv[k], procs) ==> folder_ok(fv[k]),
        decreases folders@.len() - fi,
    {
        let folder = &folders[fi];
        proof {
            assert(fv[fi as int] == folder@);
            assert(fv.skip(fi as int)[0] == fv[fi as int]);
            assert(fv.skip(fi as int).drop_first() =~= fv.skip(fi as int + 1));
        }
        if !contains_str(processed, &folder.name) {
            let ghost before_actions = action_views(actions@);
            let mut fj: usize = 0;
            while fj < folder.files.len()
                invariant
                    fj <= folder.files@.len(),
                    folder@ == fv[fi as int],
                    fi < folders@.len(),
                    fv == folder_views(folders@),
                    procs == str_views(processed@),
                    is_scanned(fv[fi as int], procs),
                    before_actions + plan_actions(fv.skip(fi as int), procs) == plan_actions(
                        fv,
                        procs,
                    ),
                    action_views(actions@) == before_actions + folder_actions(
                        fv[fi as int],
                    ).take(fj as int),
                    forall|j: int| 0 <= j < fj ==> mtime_ok(#[trigger] fv[fi as int].files[j].mtime),
                    str_views(buckets@) == dedup_all(
                        action_views(actions@).map_values(|a: CopyActionView| a.bucket),
                    ),
                    distinct_lines(str_views(buckets@)),
                    processed_after(str_views(new_processed@), fv.skip(fi as int))
                        == processed_after(procs, fv),
                    distinct_lines(procs) ==> distinct_lines(str_views(new_processed@)),
                    forall|k: int|
                        0 <= k < fi && is_scanned(#[trigger] fv[k], procs) ==> folder_ok(fv[k]),
                decreases folder.files@.len() - fj,
            {
                let file = &folder.files[fj];
                proof {
                    assert(fv[fi as int].files[fj as int] == file@);
                }
                match bucket_name(file.mtime) {
                    None => {
                        let err = TimestampError {
                            subfolder: folder.name.clone(),
                            file: file.name.clone(),
                            mtime: file.mtime,
                        };
                        proof {
                            assert(!mtime_ok(fv[fi as int].files[fj as int].mtime));
                            assert(fv[fi as int].files[fj as int] == (FileEntryView {
                                name: err.file@,
                                mtime: err.mtime,
                            }));
                            assert(!scan_ok(fv, procs)) by {
                                if scan_ok(fv, procs) {
                                    assert(folder_ok(fv[fi as int]));
                                    assert(mtime_ok(fv[fi as int].files[fj as int].mtime));
                                }
                            }
                        }
                        return Err(err);
                    },
                    Some(b) => {
                        let ghost prior_actions = action_views(actions@);
                        let act = CopyAction {
                            subfolder: folder.name.clone(),
                            file: file.name.clone(),
                            bucket: b.clone(),
                        };
                        proof {
                            assert(act@ == folder_actions(fv[fi as int])[fj as int]);
                        }
                        actions.push(act);
                        insert_unique(&mut buckets, b);
                        proof {
                            assert(action_views(actions@) =~= prior_actions.push(
                                folder_actions(fv[fi as int])[fj as int],
                            ));
                            assert(action_views(actions@) =~= before_actions + folder_actions(
                                fv[fi as int],
                            ).take(fj as int + 1));
                            assert(action_views(actions@).map_values(|a: CopyActionView| a.bucket)
                                =~= prior_actions.map_values(|a: CopyActionView| a.bucket).push(
                                bucket_of(fv[fi as int].files[fj as int].mtime),
                            ));
                            lemma_dedup_from_push(
                                Seq::empty(),
                                prior_actions.map_values(|a: CopyActionView| a.bucket),
                                bucket_of(fv[fi as int].files[fj as int].mtime),
                            );
                        }
                    },
                }
                fj = fj + 1;
            }
            proof {
                assert(folder_actions(fv[fi as int]).take(fj as int) =~= folder_actions(
                    fv[fi as int],
                ));
                assert(folder_ok(fv[fi as int]));
                assert(plan_actions(fv.skip(fi as int), procs) == folder_actions(fv[fi as int])
                    + plan_actions(fv.skip(fi as int + 1), procs));
                assert(action_views(actions@) + plan_actions(fv.skip(fi as int + 1), procs)
                    =~= (before_actions + folder_actions(fv[fi as int])) + plan_actions(
                    fv.skip(fi as int + 1),
                    procs,
                ));
                assert((before_actions + folder_actions(fv[fi as int])) + plan_actions(
                    fv.skip(fi as int + 1),
                    procs,
                ) =~= before_actions + (folder_actions(fv[fi as int]) + plan_actions(
                    fv.skip(fi as int + 1),
                    procs,
                )));
            }
        } else {
            proof {
                assert(!is_scanned(fv[fi as int], procs));
                assert(plan_actions(fv.skip(fi as int), procs) == Seq::<CopyActionView>::empty()
                    + plan_actions(fv.skip(fi as int + 1), procs));
                assert(Seq::<CopyActionView>::empty() + plan_actions(fv.skip(fi as int + 1), procs)
                    =~= plan_actions(fv.skip(fi as int + 1), procs));
            }
        }
        insert_unique(&mut new_processed, folder.name.clone());
        proof {
            assert(processed_after(str_views(new_processed@), fv.skip(fi as int + 1))
                == processed_after(procs, fv));
        }
        fi = fi + 1;
    }
    proof {
        assert(fv.skip(folders@.len() as int) =~= Seq::<SubfolderView>::empty());
        assert(action_views(actions@) + plan_actions(fv.skip(folders@.len() as int), procs)
            =~= action_views(actions@));
        assert(scan_ok(fv, procs));
    }
    Ok(Plan { actions, buckets, new_processed })
}

/// A subfolder already recorded as processed is never re-scanned: no copy
/// action of the plan names it.
pub proof fn lemma_processed_folder_skipped(
    folders: Seq<SubfolderView>,
    processed: Seq<Seq<char>>,
    name: Seq<char>,
)
    requires
        processed.contains(name),
    ensures
        forall|k: int|
            0 <= k < plan_actions(folders, processed).len() ==> (#[trigger] plan_actions(
                folders,
                processed,
            )[k]).subfolder != name,
    decreases folders.len(),
{
    if folders.len() == 0 {
    } else {
        lemma_processed_folder_skipped(folders.drop_first(), processed, name);
        let head = if is_scanned(folders[0], processed) {
            folder_actions(folders[0])
        } else {
            Seq::<CopyActionView>::empty()
        };
        let rest = plan_actions(folders.drop_first(), processed);
        assert forall|k: int|
            0 <= k < plan_actions(folders, processed).len() implies (#[trigger] plan_actions(
            folders,
            processed,
        )[k]).subfolder != name by {
            if k < head.len() {
                assert(is_scanned(folders[0], processed));
                assert(head[k].subfolder == folders[0].name);
                assert(folders[0].name != name);
            } else {
                assert(plan_actions(folders, processed)[k] == rest[k - head.len()]);
            }
        }
    }
}

/// After a run, the processed set holds every folder name, and everything it
/// held before.
pub proof fn lemma_processed_after_superset(processed: Seq<Seq<char>>, folders: Seq<SubfolderView>)
    ensures
        forall|i: int|
            0 <= i < folders.len() ==> processed_after(processed, folders).contains(
                (#[trigger] folders[i]).name,
            ),
        forall|x: Seq<char>|
            processed.contains(x) ==> processed_after(processed, folders).contains(x),
    decreases folders.len(),
{
    if folders.len() == 0 {
    } else {
        let stepped = dedup_push(processed, folders[0].name);
        assert forall|x: Seq<char>| processed.contains(x) implies stepped.contains(x) by {
            let i = choose|i: int| 0 <= i < processed.len() && processed[i] == x;
            assert(stepped[i] == x);
        }
        assert(stepped.contains(folders[0].name)) by {
            if processed.contains(folders[0].name) {
            } else {
                assert(stepped[processed.len() as int] == folders[0].name);
            }
        }
        lemma_processed_after_superset(stepped, folders.drop_first());
        assert forall|i: int|
            0 <= i < folders.len() implies processed_after(processed, folders).contains(
            (#[trigger] folders[i]).name,
        ) by {
            if i > 0 {
                assert(folders.drop_first()[i - 1] == folders[i]);
            }
        }
    }
}

/// A run whose folders are all recorded as processed scans nothing: it plans
/// no actions and leaves the processed set exactly as it was.
pub proof fn lemma_all_processed_noop(folders: Seq<SubfolderView>, processed: Seq<Seq<char>>)
    requires
        forall|i: int|
            0 <= i < folders.len() ==> processed.contains((#[trigger] folders[i]).name),
    ensures
        plan_actions(folders, processed) == Seq::<CopyActionView>::empty(),
        processed_after(processed, folders) == processed,
        scan_ok(folders, processed),
    decreases folders.len(),
{
    if folders.len() == 0 {
    } else {
        assert(processed.contains(folders[0].name));
        assert(!is_scanned(folders[0], processed));
        assert(dedup_push(processed, folders[0].name) == processed);
        assert forall|i: int|
            0 <= i < folders.drop_first().len() implies processed.contains(
            (#[trigger] folders.drop_first()[i]).name,
        ) by {
            assert(folders.drop_first()[i] == folders[i + 1]);
        }
        lemma_all_processed_noop(folders.drop_first(), processed);
        assert(plan_actions(folders, processed) =~= Seq::<CopyActionView>::empty());
    }
}

/// Running again over unchanged folders right after a completed run is a
/// no-op: nothing is scanned, no copy is planned, and the processed set
/// stays exactly what the first run recorded.
pub proof fn lemma_second_run_noop(folders: Seq<SubfolderView>, processed: Seq<Seq<char>>)
    ensures
        scan_ok(folders, processed_after(processed, folders)),
        plan_actions(folders, processed_after(processed, folders)) == Seq::<
            CopyActionView,
        >::empty(),
        processed_after(processed_after(processed, folders), folders) == processed_after(
            processed,
            folders,
        ),
{
    lemma_processed_after_superset(processed, folders);
    lemma_all_processed_noop(folders, processed_after(processed, folders));
}

/// Adding a name only if absent keeps the set free of duplicates.
proof fn lemma_dedup_push_distinct(acc: Seq<Seq<char>>, x: Seq<char>)
    requires
        distinct_lines(acc),
    ensures
        distinct_lines(dedup_push(acc, x)),
{
    if !acc.contains(x) {
        assert forall|i: int, j: int|
            0 <= i < j < acc.push(x).len() implies acc.push(x)[i] != acc.push(x)[j] by {
            if j == acc.len() {
                if acc[i] == x {
                    assert(acc.contains(x));
                }
            }
        }
    }
}

/// A run keeps the processed set free of duplicates.
proof fn lemma_processed_after_distinct(processed: Seq<Seq<char>>, folders: Seq<SubfolderView>)
    requires
        distinct_lines(processed),
    ensures
        distinct_lines(processed_after(processed, folders)),
    decreases folders.len(),
{
    if folders.len() > 0 {
        lemma_dedup_push_distinct(processed, folders[0].name);
        lemma_processed_after_distinct(
            dedup_push(processed, folders[0].name),
            folders.drop_first(),
        );
    }
}

/// Everything in the processed set after a run was there before or is a
/// folder name.
proof fn lemma_processed_after_elements(processed: Seq<Seq<char>>, folders: Seq<SubfolderView>)
    ensures
        forall|x: Seq<char>|
            #[trigger] processed_after(processed, folders).contains(x) ==> processed.contains(x)
                || exists|i: int| 0 <= i < folders.len() && (#[trigger] folders[i]).name == x,
    decreases folders.len(),
{
    if folders.len() > 0 {
        let stepped = dedup_push(processed, folders[0].name);
        lemma_processed_after_elements(stepped, folders.drop_first());
        assert forall|x: Seq<char>|
            #[trigger] processed_after(processed, folders).contains(x) implies processed.contains(
            x,
        ) || exists|i: int| 0 <= i < folders.len() && (#[trigger] folders[i]).name == x by {
            assert(processed_after(stepped, folders.drop_first()).contains(x));
            if stepped.contains(x) {
                let i = choose|i: int| 0 <= i < stepped.len() && stepped[i] == x;
                if i < processed.len() {
                    assert(processed[i] == x);
                } else {
                    assert(folders[0].name == x);
                }
            } else {
                let i = choose|i: int|
                    0 <= i < folders.drop_first().len() && folders.drop_first()[i].name == x;
                assert(folders[i + 1].name == x);
            }
        }
    }
}

/// Two consecutive runs over unchanged folders write the same marker file:
/// the text rendered after the second run equals the text rendered after the
/// first, because parsing the first text gives the first processed set back
/// and a run over it changes nothing. Holds whenever the folder names and
/// the prior processed names are valid marker lines (no embedded newline, no
/// trailing carriage return) and the prior names are distinct.
pub proof fn lemma_marker_stable_after_rerun(
    folders: Seq<SubfolderView>,
    processed: Seq<Seq<char>>,
)
    requires
        forall|i: int|
            0 <= i < folders.len() ==> !(#[trigger] folders[i].name).contains('\n') && !(
            folders[i].name.len() > 0 && folders[i].name[folders[i].name.len() - 1] == '\r'),
        forall|i: int|
            0 <= i < processed.len() ==> !(#[trigger] processed[i]).contains('\n') && !(
            processed[i].len() > 0 && processed[i][processed[i].len() - 1] == '\r'),
        distinct_lines(processed),
    ensures
        dedup_all(split_lines(join_lines(processed_after(processed, folders)))) == processed_after(
            processed,
            folders,
        ),
        processed_after(processed_after(processed, folders), folders) == processed_after(
            processed,
            folders,
        ),
{
    let recorded = processed_after(processed, folders);
    lemma_processed_after_distinct(processed, folders);
    lemma_processed_after_elements(processed, folders);
    assert forall|i: int|
        0 <= i < recorded.len() implies !(#[trigger] recorded[i]).contains('\n') && !(
        recorded[i].len() > 0 && recorded[i][recorded[i].len() - 1] == '\r') by {
        assert(recorded.contains(recorded[i]));
    }
    crate::marker::lemma_marker_round_trip(recorded);
    lemma_second_run_noop(folders, processed);
}

/// Membership in a deduplicated list is membership in the accumulator or in
/// the input.
proof fn lemma_dedup_membership(acc: Seq<Seq<char>>, lines: Seq<Seq<char>>)
    ensures
        forall|x: Seq<char>|
            #[trigger] dedup_from(acc, lines).contains(x) <==> acc.contains(x) || lines.contains(
                x,
            ),
    decreases lines.len(),
{
    if lines.len() == 0 {
        assert forall|x: Seq<char>|
            #[trigger] dedup_from(acc, lines).contains(x) <==> acc.contains(x)
                || lines.contains(x) by {
            if lines.contains(x) {
                let i = choose|i: int| 0 <= i < lines.len() && lines[i] == x;
                assert(false);
            }
            assert(dedup_from(acc, lines) == acc);
        }
    } else {
        let stepped = dedup_push(acc, lines[0]);
        lemma_dedup_membership(stepped, lines.drop_first());
        assert forall|x: Seq<char>|
            #[trigger] dedup_from(acc, lines).contains(x) <==> acc.contains(x)
                || lines.contains(x) by {
            assert(dedup_from(acc, lines) == dedup_from(stepped, lines.drop_first()));
            assert(dedup_from(stepped, lines.drop_first()).contains(x) <==> stepped.contains(x)
                || lines.drop_first().contains(x));
            assert(stepped.contains(x) <==> acc.contains(x) || x == lines[0]) by {
                if acc.contains(lines[0]) {
                } else {
                    if acc.contains(x) {
                        let i = choose|i: int| 0 <= i < acc.len() && acc[i] == x;
                        assert(stepped[i] == x);
                    }
                    if x == lines[0] {
                        assert(stepped[acc.len() as int] == x);
                    }
                    if stepped.contains(x) {
                        let i = choose|i: int| 0 <= i < stepped.len() && stepped[i] == x;
                        if i < acc.len() {
                            assert(acc[i] == x);
                        }
                    }
                }
            }
            assert(lines.contains(x) <==> x == lines[0] || lines.drop_first().contains(x)) by {
                if lines.contains(x) {
                    let i = choose|i: int| 0 <= i < lines.len() && lines[i] == x;
                    if i > 0 {
                        assert(lines.drop_first()[i - 1] == x);
                    }
                }
                if lines.drop_first().contains(x) {
                    let i = choose|i: int|
                        0 <= i < lines.drop_first().len() && lines.drop_first()[i] == x;
                    assert(lines[i + 1] == x);
                }
            }
        }
    }
}

/// Every file of every scanned folder gets its bucket into the plan's bucket
/// list: the destination will have a `YYYY-MM` directory for each month that
/// holds a scanned source file.
pub proof fn lemma_file_bucket_planned(
    folders: Seq<SubfolderView>,
    processed: Seq<Seq<char>>,
    i: int,
    j: int,
)
    requires
        0 <= i < folders.len(),
        is_scanned(folders[i], processed),
        0 <= j < folders[i].files.len(),
    ensures
        buckets_of(plan_actions(folders, processed)).contains(
            bucket_of(folders[i].files[j].mtime),
        ),
{
    let a = folder_actions(folders[i])[j];
    lemma_action_planned(folders, processed, i, j);
    let acts = plan_actions(folders, processed);
    let k = choose|k: int| 0 <= k < acts.len() && acts[k] == a;
    let m = acts.map_values(|a: CopyActionView| a.bucket);
    assert(m[k] == bucket_of(folders[i].files[j].mtime));
    lemma_dedup_membership(Seq::empty(), m);
    assert(m.contains(bucket_of(folders[i].files[j].mtime)));
}

/// The copy action of each file of each scanned folder is in the plan.
proof fn lemma_action_planned(
    folders: Seq<SubfolderView>,
    processed: Seq<Seq<char>>,
    i: int,
    j: int,
)
    requires
        0 <= i < folders.len(),
        is_scanned(folders[i], processed),
        0 <= j < folders[i].files.len(),
    ensures
        plan_actions(folders, processed).contains(folder_actions(folders[i])[j]),
    decreases folders.len(),
{
    let a = folder_actions(folders[i])[j];
    let head = if is_scanned(folders[0], processed) {
        folder_actions(folders[0])
    } else {
        Seq::<CopyActionView>::empty()
    };
    let rest = plan_actions(folders.drop_first(), processed);
    if i == 0 {
        assert(plan_actions(folders, processed)[j] == a);
    } else {
        assert(folders.drop_first()[i - 1] == folders[i]);
        lemma_action_planned(folders.drop_first(), processed, i - 1, j);
        let k = choose|k: int| 0 <= k < rest.len() && rest[k] == a;
        assert(plan_actions(folders, processed)[head.len() + k] == a);
    }
}

/// Every bucket in the plan comes from some file of some scanned folder: the
/// run creates no `YYYY-MM` directory without a source file in that month.
pub proof fn lemma_planned_bucket_from_file(
    folders: Seq<SubfolderView>,
    processed: Seq<Seq<char>>,
    b: Seq<char>,
)
    requires
        buckets_of(plan_actions(folders, processed)).contains(b),
    ensures
        exists|i: int, j: int|
            0 <= i < folders.len() && is_scanned(folders[i], processed) && 0 <= j
                < folders[i].files.len() && bucket_of(#[trigger] folders[i].files[j].mtime) == b,
{
    let acts = plan_actions(folders, processed);
    let m = acts.map_values(|a: CopyActionView| a.bucket);
    lemma_dedup_membership(Seq::empty(), m);
    assert(m.contains(b));
    let k = choose|k: int| 0 <= k < m.len() && m[k] == b;
    assert(acts.contains(acts[k])) by {
        assert(0 <= k < acts.len());
    }
    lemma_action_from_file(folders, processed, acts[k]);
    let (i, j): (int, int) = choose|i: int, j: int|
        0 <= i < folders.len() && is_scanned(folders[i], processed) && 0 <= j
            < folders[i].files.len() && (#[trigger] folder_actions(folders[i])[j]) == acts[k];
    assert(bucket_of(folders[i].files[j].mtime) == b);
}

/// Every planned action is the action of some file of some scanned folder.
proof fn lemma_action_from_file(
    folders: Seq<SubfolderView>,
    processed: Seq<Seq<char>>,
    a: CopyActionView,
)
    requires
        plan_actions(folders, processed).contains(a),
    ensures
        exists|i: int, j: int|
            0 <= i < folders.len() && is_scanned(folders[i], processed) && 0 <= j
                < folders[i].files.len() && (#[trigger] folder_actions(folders[i])[j]) == a,
    decreases folders.len(),
{
    let acts = plan_actions(folders, processed);
    let head = if is_scanned(folders[0], processed) {
        folder_actions(folders[0])
    } else {
        Seq::<CopyActionView>::empty()
    };
    let rest = plan_actions(folders.drop_first(), processed);
    let k = choose|k: int| 0 <= k < acts.len() && acts[k] == a;
    if k < head.len() {
        assert(is_scanned(folders[0], processed));
        assert(folder_actions(folders[0])[k] == a);
    } else {
        assert(rest[k - head.len()] == a);
        assert(rest.contains(a)) by {
            assert(0 <= k - head.len() < rest.len());
        }
        lemma_action_from_file(folders.drop_first(), processed, a);
        let (i, j): (int, int) = choose|i: int, j: int|
            0 <= i < folders.drop_first().len() && is_scanned(folders.drop_first()[i], processed)
                && 0 <= j < folders.drop_first()[i].files.len() && (#[trigger] folder_actions(
                folders.drop_first()[i],
            )[j]) == a;
        assert(folders.drop_first()[i] == folders[i + 1]);
        assert(0 <= i + 1 < folders.len() && is_scanned(folders[i + 1], processed) && 0 <= j
            < folders[i + 1].files.len() && folder_actions(folders[i + 1])[j] == a);
    }
}

/// Appending a line to the input of a dedup appends it to the output unless
/// it is already there.
proof fn lemma_dedup_from_push(acc: Seq<Seq<char>>, lines: Seq<Seq<char>>, x: Seq<char>)
    ensures
        dedup_from(acc, lines.push(x)) == dedup_push(dedup_from(acc, lines), x),
    decreases lines.len(),
{
    if lines.len() == 0 {
        assert(lines.push(x)[0] == x);
        assert(lines.push(x).drop_first() =~= Seq::<Seq<char>>::empty());
        assert(dedup_from(acc, lines.push(x)) == dedup_from(
            dedup_push(acc, x),
            Seq::<Seq<char>>::empty(),
        ));
    } else {
        assert(lines.push(x)[0] == lines[0]);
        assert(lines.push(x).drop_first() =~= lines.drop_first().push(x));
        lemma_dedup_from_push(dedup_push(acc, lines[0]), lines.drop_first(), x);
    }
}

} // verus!
