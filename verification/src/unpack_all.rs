//! Unpacking whole archives.

use crate::archive::{look, rest_of, start, Archive, Entries, Found, Place};
use crate::entry::{Entry, EntryFields};
use crate::entry_type::{type_of, EntryType};
use crate::error::{Fault, TarError};
use crate::path::is_inside;
use crate::unpack::{
    law_placed_inside, placed, stepped, target_in, Acted, Placed, Placement, Stepped, UnpackAction,
    UnpackStep,
};
use vstd::prelude::*;
use vstd::slice::slice_to_vec;

verus! {

/// Whether one byte string comes before another in the order of dictionaries.
pub open spec fn is_before(a: Seq<u8>, b: Seq<u8>) -> bool
    decreases b.len(),
{
    if b.len() == 0 {
        false
    } else if a.len() == 0 {
        true
    } else if a[0] != b[0] {
        a[0] < b[0]
    } else {
        is_before(a.skip(1), b.skip(1))
    }
}

/// Returns whether one byte string comes before another in the order of dictionaries.
fn comes_before(a: &[u8], b: &[u8]) -> (r: bool)
    ensures
        r == is_before(a@, b@),
{
    let mut i: usize = 0;
    assert(a@.skip(0) =~= a@);
    assert(b@.skip(0) =~= b@);
    while i < a.len() && i < b.len() && a[i] == b[i]
        invariant
            i <= a@.len(),
            i <= b@.len(),
            is_before(a@, b@) == is_before(a@.skip(i as int), b@.skip(i as int)),
        decreases a@.len() - i,
    {
        assert(a@.skip(i as int).skip(1) =~= a@.skip(i + 1));
        assert(b@.skip(i as int).skip(1) =~= b@.skip(i + 1));
        i = i + 1;
    }
    if i >= b.len() {
        false
    } else if i >= a.len() {
        true
    } else {
        a[i] < b[i]
    }
}

/// A directory that is put off until everything else is unpacked.
pub struct LateDir {
    path: Vec<u8>,
    place: Placement,
}

/// A directory that is put off until everything else is unpacked, as a mathematical value.
#[verifier::ext_equal]
pub struct Late {
    /// The path of the entry.
    pub path: Seq<u8>,
    /// Where the directory goes.
    pub place: Placed,
}

impl View for LateDir {
    type V = Late;

    closed spec fn view(&self) -> Late {
        Late { path: self.path@, place: self.place@ }
    }
}

/// Directories as mathematical values.
pub open spec fn late_dirs(list: Seq<LateDir>) -> Seq<Late> {
    list.map_values(|d: LateDir| d@)
}

/// A list from the last to the first in the order of dictionaries, with one more directory: it
/// goes behind all that do not come before it.
pub open spec fn inserted(list: Seq<Late>, d: Late) -> Seq<Late>
    decreases list.len(),
{
    if list.len() > 0 && is_before(list.last().path, d.path) {
        inserted(list.drop_last(), d).push(list.last())
    } else {
        list.push(d)
    }
}

/// Directories from the last to the first in the order of dictionaries, so that what is in a
/// directory comes before the directory. Of those with one path, the first stays first.
pub open spec fn sorted(list: Seq<Late>) -> Seq<Late>
    decreases list.len(),
{
    if list.len() == 0 {
        list
    } else {
        inserted(sorted(list.drop_last()), list.last())
    }
}

/// What the walk over an archive asks to be done.
#[verifier::ext_equal]
pub struct Gathered {
    /// What is done for everything but directories, in the order of the archive.
    pub steps: Seq<Stepped>,
    /// The directories, in the order of the archive.
    pub dirs: Seq<Late>,
    /// Why the walk stopped before the end of the archive, if it did.
    pub fault: Option<Fault>,
}

/// What the walk over an archive asks to be done when it is unpacked into `dst`.
pub open spec fn gathered(obj: Seq<u8>, at: Place, dst: Seq<u8>) -> Gathered
    decreases obj.len() - at.pos,
{
    let (place, found) = look(obj, at);
    match found {
        Found::End => Gathered { steps: Seq::empty(), dirs: Seq::empty(), fault: None },
        Found::Fail(f) => Gathered { steps: Seq::empty(), dirs: Seq::empty(), fault: Some(f) },
        Found::Entry(e) => if !(at.pos < place.pos <= obj.len()) {
            Gathered { steps: Seq::empty(), dirs: Seq::empty(), fault: None }
        } else if type_of(e.header[156]) == EntryType::Directory {
            let rest = gathered(obj, place, dst);
            Gathered {
                dirs: seq![Late { path: e.path(), place: placed(dst, e.path()) }] + rest.dirs,
                ..rest
            }
        } else {
            match stepped(e, rest_of(obj, place.pos), dst) {
                Err(error) => Gathered {
                    steps: Seq::empty(),
                    dirs: Seq::empty(),
                    fault: Some(error@),
                },
                Ok(step) => {
                    let rest = gathered(obj, place, dst);
                    Gathered { steps: seq![step] + rest.steps, ..rest }
                },
            }
        },
    }
}

/// What is done for a directory that was put off.
pub open spec fn late_step(d: Late) -> Stepped {
    Stepped {
        place: d.place,
        action: if d.place is At {
            Acted::Directory
        } else {
            Acted::Nothing
        },
    }
}

/// All that is to be done: the directories come last, and only if the archive could be read.
pub open spec fn all_steps(g: Gathered) -> Seq<Stepped> {
    if g.fault is None {
        g.steps + sorted(g.dirs).map_values(|d: Late| late_step(d))
    } else {
        g.steps
    }
}

/// What is to be done in the file system to unpack an archive, and how that ends.
pub struct UnpackRun {
    /// What is to be done, in order.
    pub steps: Vec<UnpackStep>,
    /// How it ends.
    pub end: Result<(), TarError>,
}

/// Steps as mathematical values.
pub open spec fn steps_of(list: Seq<UnpackStep>) -> Seq<Stepped> {
    list.map_values(|s: UnpackStep| s@)
}

impl EntryFields {
    /// Returns what is put off until everything else is unpacked into `dst`: a directory.
    pub fn late_dir(&self, dst: &[u8]) -> (r: Option<LateDir>)
        ensures
            if type_of(self@.header[156]) == EntryType::Directory {
                r matches Some(d) && d@ == (Late {
                    path: self@.path(),
                    place: placed(dst@, self@.path()),
                })
            } else {
                r is None
            },
    {
        let kind: EntryType = self.header.entry_type();
        if kind == EntryType::Directory {
            let path: Vec<u8> = self.path_bytes();
            let place: Placement = target_in(dst, path.as_slice());
            Some(LateDir { path, place })
        } else {
            None
        }
    }
}

/// Puts a directory in its place in a list from the last to the first.
pub fn insert_dir(dirs: &mut Vec<LateDir>, d: LateDir)
    ensures
        late_dirs(final(dirs)@) == inserted(late_dirs(old(dirs)@), d@),
{
    let ghost list = late_dirs(dirs@);
    let ghost before = dirs@;
    let mut i: usize = dirs.len();
    assert(list.take(list.len() as int) =~= list);
    assert(list.skip(list.len() as int) =~= Seq::empty());
    assert(inserted(list, d@) + list.skip(list.len() as int) =~= inserted(list, d@));
    while i > 0 && comes_before(dirs[i - 1].path.as_slice(), d.path.as_slice())
        invariant
            i <= dirs@.len(),
            dirs@ == before,
            list == late_dirs(before),
            list.len() == before.len(),
            inserted(list, d@) == inserted(list.take(i as int), d@) + list.skip(i as int),
        decreases i,
    {
        let ghost front = list.take(i as int);
        assert(front.last() == before[i - 1]@);
        assert(front.drop_last() =~= list.take(i - 1));
        assert(inserted(front.drop_last(), d@).push(front.last()) + list.skip(i as int)
            =~= inserted(list.take(i - 1), d@) + list.skip(i - 1));
        i = i - 1;
    }
    assert(i > 0 ==> list.take(i as int).last() == before[i - 1]@);
    assert(inserted(list.take(i as int), d@) == list.take(i as int).push(d@));
    dirs.insert(i, d);
    assert(late_dirs(dirs@) =~= list.take(i as int).push(d@) + list.skip(i as int));
}

/// Gathers what is to be done for the entries that are still ahead.
fn gather(entries: &mut Entries<'_>, dst: &[u8]) -> (r: (
    Vec<UnpackStep>,
    Vec<LateDir>,
    Result<(), TarError>,
))
    ensures
        *final(final(entries).pos) == *final(old(entries).pos),
        ({
            let g = gathered(old(entries).obj@, old(entries).place(), dst@);
            &&& steps_of(r.0@) == g.steps
            &&& match g.fault {
                None => r.2 is Ok && late_dirs(r.1@) == sorted(g.dirs),
                Some(f) => r.2 matches Err(e) && e@ == f,
            }
        }),
{
    let mut steps: Vec<UnpackStep> = Vec::new();
    let mut dirs: Vec<LateDir> = Vec::new();
    let ghost obj = entries.obj@;
    let ghost g = gathered(obj, entries.place(), dst@);
    let ghost mut seen: Seq<Late> = Seq::empty();
    assert(steps_of(steps@) + g.steps =~= g.steps);
    assert(seen + g.dirs =~= g.dirs);
    assert(late_dirs(dirs@) =~= sorted(seen));
    loop
        invariant
            entries.obj@ == obj,
            obj == old(entries).obj@,
            *final(entries.pos) == *final(old(entries).pos),
            g == gathered(obj, old(entries).place(), dst@),
            ({
                let rest = gathered(obj, entries.place(), dst@);
                &&& steps_of(steps@) + rest.steps == g.steps
                &&& seen + rest.dirs == g.dirs
                &&& rest.fault == g.fault
            }),
            late_dirs(dirs@) == sorted(seen),
        decreases obj.len() - entries.place().pos,
    {
        let ghost rest = gathered(obj, entries.place(), dst@);
        match entries.next() {
            None => {
                assert(steps_of(steps@) + rest.steps =~= steps_of(steps@));
                assert(seen + rest.dirs =~= seen);
                return (steps, dirs, Ok(()));
            },
            Some(Err(e)) => {
                assert(steps_of(steps@) + rest.steps =~= steps_of(steps@));
                return (steps, dirs, Err(e));
            },
            Some(Ok(entry)) => {
                let mut entry: Entry<'_> = entry;
                let ghost next = gathered(obj, entries.place(), dst@);
                match entry.fields.late_dir(dst) {
                    Some(dir) => {
                        let ghost late = dir@;
                        insert_dir(&mut dirs, dir);
                        proof {
                            assert(seen.push(late).drop_last() =~= seen);
                            assert(seen + (seq![late] + next.dirs) =~= seen.push(late) + next.dirs);
                            seen = seen.push(late);
                        }
                    },
                    None => match entry.unpack_in(dst) {
                        Ok(step) => {
                            let ghost now = steps@;
                            steps.push(step);
                            assert(steps_of(steps@) =~= steps_of(now).push(step@));
                            assert(steps_of(now) + (seq![step@] + next.steps) =~= steps_of(steps@)
                                + next.steps);
                        },
                        Err(e) => {
                            assert(steps_of(steps@) + rest.steps =~= steps_of(steps@));
                            return (steps, dirs, Err(e));
                        },
                    },
                }
            },
        }
    }
}

/// Adds what is to be done for the directories that were put off.
pub fn add_late(steps: &mut Vec<UnpackStep>, dirs: Vec<LateDir>)
    ensures
        steps_of(final(steps)@) == steps_of(old(steps)@) + late_dirs(dirs@).map_values(
            |d: Late| late_step(d),
        ),
{
    let ghost done = steps@;
    let ghost late = late_dirs(dirs@).map_values(|d: Late| late_step(d));
    let mut i: usize = 0;
    while i < dirs.len()
        invariant
            i <= dirs@.len(),
            late == late_dirs(dirs@).map_values(|d: Late| late_step(d)),
            steps_of(steps@) =~= steps_of(done) + late.take(i as int),
        decreases dirs@.len() - i,
    {
        let ghost now = steps@;
        let place: Placement = match &dirs[i].place {
            Placement::At(p) => Placement::At(slice_to_vec(p.as_slice())),
            Placement::Root => Placement::Root,
            Placement::Skipped => Placement::Skipped,
        };
        let action: UnpackAction = match &place {
            Placement::At(_) => UnpackAction::Directory,
            _ => UnpackAction::Nothing,
        };
        let step: UnpackStep = UnpackStep { place, action };
        assert(late_dirs(dirs@)[i as int] == dirs@[i as int]@);
        assert(step@ =~= late[i as int]);
        steps.push(step);
        assert(steps_of(steps@) =~= steps_of(now).push(step@));
        i = i + 1;
    }
    assert(late.take(i as int) =~= late);
}

impl Archive {
    /// Finds out all that is to be done to unpack this archive into `dst`.
    ///
    /// Directories are put off until everything else is unpacked, so that their permissions
    /// do not stand in the way.
    pub fn unpack(&mut self, dst: &[u8]) -> (r: UnpackRun)
        ensures
            final(self).inner.obj == old(self).inner.obj,
            final(self).inner.options == old(self).inner.options,
            if old(self).inner.pos != 0 {
                r.steps@.len() == 0 && r.end == Err::<(), TarError>(TarError::NotAtStart)
            } else {
                let g = gathered(
                    old(self).inner.obj@,
                    start(old(self).inner.options, false),
                    dst@,
                );
                &&& steps_of(r.steps@) == all_steps(g)
                &&& match g.fault {
                    None => r.end is Ok,
                    Some(f) => r.end matches Err(e) && e@ == f,
                }
            },
    {
        let mut entries: Entries<'_> = match self.entries() {
            Ok(entries) => entries,
            Err(e) => {
                return UnpackRun { steps: Vec::new(), end: Err(e) };
            },
        };
        let (steps, dirs, end): (
            Vec<UnpackStep>,
            Vec<LateDir>,
            Result<(), TarError>,
        ) = gather(&mut entries, dst);
        let mut steps: Vec<UnpackStep> = steps;
        if end.is_ok() {
            add_late(&mut steps, dirs);
        }
        UnpackRun { steps, end }
    }
}

proof fn lemma_before_asymmetric(a: Seq<u8>, b: Seq<u8>)
    requires
        is_before(a, b),
    ensures
        !is_before(b, a),
    decreases b.len(),
{
    if a.len() > 0 && a[0] == b[0] {
        lemma_before_asymmetric(a.skip(1), b.skip(1));
    }
}

proof fn lemma_before_transitive(a: Seq<u8>, b: Seq<u8>, c: Seq<u8>)
    requires
        !is_before(a, b),
        !is_before(b, c),
    ensures
        !is_before(a, c),
    decreases c.len(),
{
    if c.len() > 0 && b.len() > 0 && a.len() > 0 && a[0] == b[0] && b[0] == c[0] {
        lemma_before_transitive(a.skip(1), b.skip(1), c.skip(1));
    }
}

/// Whether a list goes from the last to the first in the order of dictionaries.
pub open spec fn is_sorted(list: Seq<Late>) -> bool {
    forall|i: int, j: int|
        0 <= i < j < list.len() ==> !is_before(#[trigger] list[i].path, #[trigger] list[j].path)
}

proof fn lemma_inserted(list: Seq<Late>, d: Late)
    requires
        is_sorted(list),
    ensures
        is_sorted(inserted(list, d)),
        inserted(list, d).len() == list.len() + 1,
        forall|k: int|
            0 <= k < inserted(list, d).len() ==> #[trigger] inserted(list, d)[k] == d
                || list.contains(inserted(list, d)[k]),
        inserted(list, d).to_multiset() == list.to_multiset().insert(d),
    decreases list.len(),
{
    broadcast use vstd::seq_lib::group_to_multiset_ensures;

    let r = inserted(list, d);
    if list.len() > 0 && is_before(list.last().path, d.path) {
        let front = list.drop_last();
        assert(is_sorted(front)) by {
            assert forall|i: int, j: int| 0 <= i < j < front.len() implies !is_before(
                #[trigger] front[i].path,
                #[trigger] front[j].path,
            ) by {
                assert(!is_before(list[i].path, list[j].path));
            }
        }
        lemma_inserted(front, d);
        let s = inserted(front, d);
        assert(r =~= s.push(list.last()));
        assert forall|k: int| 0 <= k < r.len() implies #[trigger] r[k] == d || list.contains(r[k]) by {
            if k < s.len() {
                assert(r[k] == s[k]);
                if s[k] != d {
                    let m = choose|m: int| 0 <= m < front.len() && front[m] == s[k];
                    assert(list[m] == s[k]);
                }
            } else {
                assert(r[k] == list[list.len() - 1]);
            }
        }
        assert forall|i: int, j: int| 0 <= i < j < r.len() implies !is_before(
            #[trigger] r[i].path,
            #[trigger] r[j].path,
        ) by {
            if j < s.len() {
                assert(!is_before(s[i].path, s[j].path));
            } else if s[i] == d {
                lemma_before_asymmetric(list.last().path, d.path);
            } else {
                let m = choose|m: int| 0 <= m < front.len() && front[m] == s[i];
                assert(list[m] == s[i]);
                assert(!is_before(list[m].path, list[list.len() - 1].path));
            }
        }
        assert(list =~= front.push(list.last()));
        assert(r.to_multiset() =~= list.to_multiset().insert(d));
    } else {
        assert(r == list.push(d));
        assert forall|k: int| 0 <= k < r.len() implies #[trigger] r[k] == d || list.contains(r[k]) by {
            if k < list.len() {
                assert(r[k] == list[k]);
            }
        }
        assert forall|i: int, j: int| 0 <= i < j < r.len() implies !is_before(
            #[trigger] r[i].path,
            #[trigger] r[j].path,
        ) by {
            if j < list.len() {
                assert(!is_before(list[i].path, list[j].path));
            } else {
                let last = list.len() - 1;
                if i < last {
                    assert(!is_before(list[i].path, list[last].path));
                    lemma_before_transitive(list[i].path, list[last].path, d.path);
                }
            }
        }
    }
}

/// The directories that are put off are unpacked from the last to the first in the order of
/// dictionaries, and all of them are.
pub proof fn law_dirs_sorted(list: Seq<Late>)
    ensures
        is_sorted(sorted(list)),
        sorted(list).len() == list.len(),
        sorted(list).to_multiset() == list.to_multiset(),
        forall|k: int| 0 <= k < sorted(list).len() ==> list.contains(#[trigger] sorted(list)[k]),
    decreases list.len(),
{
    broadcast use vstd::seq_lib::group_to_multiset_ensures;

    if list.len() > 0 {
        let front = list.drop_last();
        let d = list.last();
        law_dirs_sorted(front);
        lemma_inserted(sorted(front), d);
        assert(list =~= front.push(d));
        assert(sorted(list).to_multiset() =~= list.to_multiset());
        assert forall|k: int| 0 <= k < sorted(list).len() implies list.contains(
            #[trigger] sorted(list)[k],
        ) by {
            let x = sorted(list)[k];
            if x == d {
                assert(list[list.len() - 1] == x);
            } else {
                let m = choose|m: int| 0 <= m < sorted(front).len() && sorted(front)[m] == x;
                assert(front.contains(sorted(front)[m]));
                let n = choose|n: int| 0 <= n < front.len() && front[n] == x;
                assert(list[n] == x);
            }
        }
    }
}

/// Whether something is done below `dst`, or nowhere.
pub open spec fn stays_inside(place: Placed, dst: Seq<u8>) -> bool {
    place matches Placed::At(p) ==> is_inside(p, dst)
}

proof fn lemma_gathered_inside(obj: Seq<u8>, at: Place, dst: Seq<u8>)
    ensures
        ({
            let g = gathered(obj, at, dst);
            &&& forall|k: int|
                0 <= k < g.steps.len() ==> stays_inside((#[trigger] g.steps[k]).place, dst)
            &&& forall|k: int|
                0 <= k < g.dirs.len() ==> stays_inside((#[trigger] g.dirs[k]).place, dst)
        }),
    decreases obj.len() - at.pos,
{
    let g = gathered(obj, at, dst);
    let (place, found) = look(obj, at);
    match found {
        Found::Entry(e) => {
            if at.pos < place.pos <= obj.len() {
                lemma_gathered_inside(obj, place, dst);
                law_placed_inside(dst, e.path());
                let rest = gathered(obj, place, dst);
                assert forall|k: int| 0 <= k < g.steps.len() implies stays_inside(
                    (#[trigger] g.steps[k]).place,
                    dst,
                ) by {
                    if type_of(e.header[156]) == EntryType::Directory {
                        assert(g.steps[k] == rest.steps[k]);
                    } else if k > 0 {
                        assert(g.steps[k] == rest.steps[k - 1]);
                    }
                }
                assert forall|k: int| 0 <= k < g.dirs.len() implies stays_inside(
                    (#[trigger] g.dirs[k]).place,
                    dst,
                ) by {
                    if type_of(e.header[156]) == EntryType::Directory {
                        if k > 0 {
                            assert(g.dirs[k] == rest.dirs[k - 1]);
                        }
                    } else {
                        assert(g.dirs[k] == rest.dirs[k]);
                    }
                }
            }
        },
        _ => {},
    }
}

/// Unpacking an archive never places anything outside the directory that is unpacked into, whatever
/// the archive holds.
///
/// Where symbolic links lead, and what hard links are made to, is seen when a step is checked.
pub proof fn law_unpack_inside(obj: Seq<u8>, at: Place, dst: Seq<u8>)
    ensures
        forall|k: int|
            0 <= k < all_steps(gathered(obj, at, dst)).len() ==> stays_inside(
                (#[trigger] all_steps(gathered(obj, at, dst))[k]).place,
                dst,
            ),
{
    let g = gathered(obj, at, dst);
    let all = all_steps(g);
    lemma_gathered_inside(obj, at, dst);
    law_dirs_sorted(g.dirs);
    assert forall|k: int| 0 <= k < all.len() implies stays_inside((#[trigger] all[k]).place, dst) by {
        if k < g.steps.len() {
            assert(all[k] == g.steps[k]);
        } else {
            let d = sorted(g.dirs)[k - g.steps.len()];
            assert(all[k] == late_step(d));
            assert(g.dirs.contains(d));
            let m = choose|m: int| 0 <= m < g.dirs.len() && g.dirs[m] == d;
            assert(stays_inside(g.dirs[m].place, dst));
        }
    }
}

} // verus!
