//! The copy plan: where each collated file goes, and the scan that feeds it.
use vstd::prelude::*;
use crate::assign::{assign, assignment_of, lemma_ascending_unique};
use crate::collate::{
    collate_spec, has_clash, holds, lemma_collate_all, FileView, has_key, insert_spec, key_index, keys, lemma_insert_facts, well_formed, Collation, Duplicate, EntryView, Group,
    GroupView,
};
use crate::datetime::{folder_text, precedes, PhotoDate};
use crate::text::{decimal, push_char, push_decimal};

verus! {

/// One copy to make: into folder `folder` (relative to the output root), under
/// name `file_name`, from `source`.
pub struct CopyStep {
    pub folder: String,
    pub file_name: String,
    pub source: String,
}

/// A step as (folder, file name, source).
pub type StepView = (Seq<char>, Seq<char>, Seq<char>);

impl CopyStep {
    pub open spec fn view(&self) -> StepView {
        (self.folder@, self.file_name@, self.source@)
    }
}

/// Failures of the grouping pipeline itself.
#[derive(Debug, Clone, Copy, PartialEq, Eq)]
pub enum PlanError {
    /// A key to be copied has no group in the table.
    CacheMismatch,
}

/// `IMG_` followed by the index and the extension.
pub open spec fn file_name_text(index: nat, extension: Seq<char>) -> Seq<char> {
    seq!['I', 'M', 'G', '_'] + decimal(index) + extension
}

/// The text of a file extension as it is filed: `.` and the extension, or
/// nothing where the path has none.
pub open spec fn extension_view(ext: Option<Seq<char>>) -> Seq<char> {
    match ext {
        Some(e) => seq!['.'] + e,
        None => Seq::empty(),
    }
}

/// The copies for one group numbered `index`.
pub open spec fn group_steps(index: nat, k: PhotoDate, files: Seq<EntryView>) -> Seq<StepView> {
    files.map_values(|f: EntryView| (folder_text(k), file_name_text(index, f.0), f.1))
}

/// Every key of `order` has a group in `t`.
pub open spec fn all_present(t: Seq<GroupView>, order: Seq<(usize, PhotoDate)>) -> bool {
    forall|i: int| 0 <= i < order.len() ==> has_key(t, (#[trigger] order[i]).1)
}

/// The copies for `order`, group after group.
pub open spec fn plan_spec(t: Seq<GroupView>, order: Seq<(usize, PhotoDate)>) -> Seq<StepView>
    decreases order.len(),
{
    if order.len() == 0 {
        Seq::empty()
    } else {
        let (index, k) = order.last();
        plan_spec(t, order.drop_last()) + group_steps(index as nat, k, t[key_index(t, k)].1)
    }
}

/// The file name `IMG_<index><extension>`.
pub fn output_file_name(index: usize, extension: &String) -> (r: String)
    ensures
        r@ == file_name_text(index as nat, extension@),
{
    let mut s = String::new();
    push_char(&mut s, 'I');
    push_char(&mut s, 'M');
    push_char(&mut s, 'G');
    push_char(&mut s, '_');
    push_decimal(&mut s, index as u64);
    let ext = extension.as_str();
    let n = ext.unicode_len();
    let ghost prefix = s@;
    let mut i: usize = 0;
    while i < n
        invariant
            n == ext@.len(),
            ext@ == extension@,
            i <= n,
            s@ == prefix + ext@.subrange(0, i as int),
        decreases n - i,
    {
        push_char(&mut s, ext.get_char(i));
        assert(ext@.subrange(0, i + 1) =~= ext@.subrange(0, i as int).push(ext@[i as int]));
        i = i + 1;
    }
    assert(ext@.subrange(0, n as int) =~= ext@);
    assert(prefix == seq!['I', 'M', 'G', '_'] + decimal(index as nat));
    s
}

/// The extension text of a path's extension component.
pub fn extension_text(ext: Option<&str>) -> (r: String)
    ensures
        r@ == extension_view(
            match ext {
                Some(e) => Some(e@),
                None => None,
            },
        ),
{
    match ext {
        None => String::new(),
        Some(e) => {
            let s = String::from_str(".");
            proof {
                reveal_strlit(".");
            }
            s.concat(e)
        },
    }
}

fn find_group(groups: &Vec<Group>, k: PhotoDate, t: Ghost<Seq<GroupView>>) -> (r: Option<usize>)
    requires
        groups@.map_values(|g: Group| g.view()) == t@,
        well_formed(t@),
    ensures
        match r {
            Some(i) => has_key(t@, k) && i == key_index(t@, k),
            None => !has_key(t@, k),
        },
{
    let mut i: usize = 0;
    while i < groups.len()
        invariant
            groups@.map_values(|g: Group| g.view()) == t@,
            well_formed(t@),
            i <= groups@.len(),
            forall|a: int| 0 <= a < i ==> (#[trigger] t@[a]).0 != k,
        decreases groups@.len() - i,
    {
        assert(t@[i as int].0 == groups@[i as int].key);
        if groups[i].key == k {
            assert(has_key(t@, k));
            return Some(i);
        }
        i = i + 1;
    }
    None
}

/// The copies that numbering `order` asks for: for each pair, in order, one
/// copy per file of the key's group. Fails where a key has no group.
pub fn plan_copies(table: &Collation, order: &Vec<(usize, PhotoDate)>) -> (r: Result<Vec<CopyStep>, PlanError>)
    requires
        table.wf(),
    ensures
        match r {
            Ok(steps) => all_present(table@, order@) && steps@.map_values(|s: CopyStep| s.view()) == plan_spec(table@, order@),
            Err(e) => e == PlanError::CacheMismatch && !all_present(table@, order@),
        },
{
    let groups = table.groups();
    let ghost t = table@;
    let mut steps: Vec<CopyStep> = Vec::new();
    let mut o: usize = 0;
    while o < order.len()
        invariant
            groups@.map_values(|g: Group| g.view()) == t,
            t == table@,
            well_formed(t),
            o <= order@.len(),
            all_present(t, order@.subrange(0, o as int)),
            steps@.map_values(|s: CopyStep| s.view()) == plan_spec(t, order@.subrange(0, o as int)),
        decreases order@.len() - o,
    {
        let (index, k) = order[o];
        let gi = match find_group(groups, k, Ghost(t)) {
            Some(gi) => gi,
            None => {
                assert(!has_key(t, order@[o as int].1));
                return Err(PlanError::CacheMismatch);
            },
        };
        let folder = k.folder_name();
        let files = &groups[gi].files;
        let ghost base = steps@.map_values(|s: CopyStep| s.view());
        let ghost fv = t[gi as int].1;
        assert(fv == files@.map_values(|f: crate::collate::FileEntry| f.view()));
        let mut f: usize = 0;
        while f < files.len()
            invariant
                fv == files@.map_values(|f: crate::collate::FileEntry| f.view()),
                folder@ == folder_text(k),
                f <= files@.len(),
                steps@.map_values(|s: CopyStep| s.view()) == base + group_steps(index as nat, k, fv.subrange(0, f as int)),
            decreases files@.len() - f,
        {
            let entry = &files[f];
            let step = CopyStep {
                folder: folder.clone(),
                file_name: output_file_name(index, &entry.extension),
                source: entry.path.clone(),
            };
            assert(fv[f as int] == entry.view());
            assert(step.view() == (folder_text(k), file_name_text(index as nat, fv[f as int].0), fv[f as int].1));
            let ghost mid = steps@.map_values(|s: CopyStep| s.view());
            steps.push(step);
            assert(steps@.map_values(|s: CopyStep| s.view()) =~= mid.push(step.view()));
            assert(fv.subrange(0, f + 1) =~= fv.subrange(0, f as int).push(fv[f as int]));
            assert(steps@.map_values(|s: CopyStep| s.view()) =~= base + group_steps(
                index as nat,
                k,
                fv.subrange(0, f + 1),
            ));
            f = f + 1;
        }
        assert(fv.subrange(0, files@.len() as int) =~= fv);
        let ghost pre = order@.subrange(0, o as int);
        let ghost next = order@.subrange(0, o + 1);
        assert(next.drop_last() =~= pre);
        assert(next.last() == (index, k));
        assert forall|a: int| 0 <= a < next.len() implies has_key(t, (#[trigger] next[a]).1) by {
            if a < o {
                assert(next[a] == pre[a]);
            }
        }
        o = o + 1;
    }
    assert(order@.subrange(0, order@.len() as int) =~= order@);
    Ok(steps)
}

/// The keys of scanned files, once per file, in order.
pub open spec fn scanned_keys(files: Seq<FileView>) -> Seq<PhotoDate> {
    files.map_values(|f: FileView| f.0)
}

proof fn lemma_same_key_sets(f1: Seq<FileView>, f2: Seq<FileView>)
    requires
        f1.to_set() == f2.to_set(),
    ensures
        scanned_keys(f1).to_set() == scanned_keys(f2).to_set(),
{
    assert forall|k: PhotoDate| scanned_keys(f1).to_set().contains(k) implies scanned_keys(f2).to_set().contains(k) by {
        let a = choose|a: int| 0 <= a < scanned_keys(f1).len() && scanned_keys(f1)[a] == k;
        assert(f1.to_set().contains(f1[a]));
        let b = choose|b: int| 0 <= b < f2.len() && f2[b] == f1[a];
        assert(scanned_keys(f2)[b] == k);
    }
    assert forall|k: PhotoDate| scanned_keys(f2).to_set().contains(k) implies scanned_keys(f1).to_set().contains(k) by {
        let a = choose|a: int| 0 <= a < scanned_keys(f2).len() && scanned_keys(f2)[a] == k;
        assert(f2.to_set().contains(f2[a]));
        let b = choose|b: int| 0 <= b < f1.len() && f1[b] == f2[a];
        assert(scanned_keys(f1)[b] == k);
    }
    assert(scanned_keys(f1).to_set() =~= scanned_keys(f2).to_set());
}

proof fn lemma_clash_moves(f1: Seq<FileView>, f2: Seq<FileView>)
    requires
        f1.no_duplicates(),
        f1.to_set() == f2.to_set(),
        has_clash(f1),
    ensures
        has_clash(f2),
{
    let (a, b) = choose|a: int, b: int|
        0 <= a < b < f1.len() && (#[trigger] f1[a]).0 == (#[trigger] f1[b]).0 && f1[a].1 == f1[b].1;
    assert(f1.to_set().contains(f1[a]) && f1.to_set().contains(f1[b]));
    let c = choose|c: int| 0 <= c < f2.len() && f2[c] == f1[a];
    let d = choose|d: int| 0 <= d < f2.len() && f2[d] == f1[b];
    assert(f1[a] != f1[b]);
    if c < d {
        assert(f2[c].0 == f2[d].0);
    } else {
        assert(f2[d].0 == f2[c].0);
    }
}

/// Scanning the same distinct files in two orders: both scans are refused
/// or neither is; where they succeed they file the same (key, extension,
/// path) triples, and numbering the keys seen from `start` gives the same
/// assignment, so every file receives the same index in both.
pub proof fn lemma_scan_order_independent(
    f1: Seq<FileView>,
    f2: Seq<FileView>,
    start: int,
    r1: Seq<(usize, PhotoDate)>,
    r2: Seq<(usize, PhotoDate)>,
)
    requires
        f1.no_duplicates(),
        f2.no_duplicates(),
        f1.to_set() == f2.to_set(),
        assignment_of(scanned_keys(f1), start, r1),
        assignment_of(scanned_keys(f2), start, r2),
    ensures
        collate_spec(f1) is None <==> collate_spec(f2) is None,
        collate_spec(f1) is Some ==> forall|k: PhotoDate, e: Seq<char>, p: Seq<char>|
            #[trigger] holds(collate_spec(f1)->Some_0, k, e, p) == holds(collate_spec(f2)->Some_0, k, e, p),
        r1 == r2,
{
    lemma_collate_all(f1);
    lemma_collate_all(f2);
    if has_clash(f1) {
        lemma_clash_moves(f1, f2);
    }
    if has_clash(f2) {
        lemma_clash_moves(f2, f1);
    }
    if collate_spec(f1) is Some {
        assert forall|k: PhotoDate, e: Seq<char>, p: Seq<char>|
            #[trigger] holds(collate_spec(f1)->Some_0, k, e, p) == holds(collate_spec(f2)->Some_0, k, e, p) by {
            assert(f1.contains((k, e, p)) == f1.to_set().contains((k, e, p)));
            assert(f2.contains((k, e, p)) == f2.to_set().contains((k, e, p)));
        }
    }
    lemma_same_key_sets(f1, f2);
    let s1 = r1.map_values(|p: (usize, PhotoDate)| p.1);
    let s2 = r2.map_values(|p: (usize, PhotoDate)| p.1);
    lemma_ascending_unique(s1, s2);
    assert forall|i: int| 0 <= i < r1.len() implies r1[i] == r2[i] by {
        assert(s1[i] == s2[i]);
    }
    assert(r1 =~= r2);
}

/// What a scan of the input has gathered: the collation table, and every key
/// filed, once per file, in the order filed.
pub struct Scan {
    table: Collation,
    seen: Vec<PhotoDate>,
}

impl Scan {
    pub closed spec fn table_view(&self) -> Seq<GroupView> {
        self.table@
    }

    pub closed spec fn seen_view(&self) -> Seq<PhotoDate> {
        self.seen@
    }

    /// The table is well formed and the keys seen are exactly its keys.
    pub open spec fn wf(&self) -> bool {
        &&& well_formed(self.table_view())
        &&& self.seen_view().to_set() == keys(self.table_view()).to_set()
    }

    /// A scan that has seen nothing.
    pub fn new() -> (r: Scan)
        ensures
            r.wf(),
            r.table_view() == Seq::<GroupView>::empty(),
            r.seen_view() == Seq::<PhotoDate>::empty(),
    {
        let r = Scan { table: Collation::new(), seen: Vec::new() };
        assert(keys(r.table@) =~= Seq::<PhotoDate>::empty());
        assert(r.seen@.to_set() =~= Set::<PhotoDate>::empty());
        assert(keys(r.table@).to_set() =~= Set::<PhotoDate>::empty());
        r
    }

    /// Files every scanned (key, extension, path) triple in order, stopping at
    /// the first refusal: refused exactly when two files share a key and an
    /// extension.
    pub fn from_files(files: &Vec<(PhotoDate, String, String)>) -> (r: Result<Scan, Duplicate>)
        ensures
            ({
                let fv = files@.map_values(|f: (PhotoDate, String, String)| (f.0, f.1@, f.2@));
                &&& r is Err <==> has_clash(fv)
                &&& r is Ok ==> {
                    &&& r->Ok_0.wf()
                    &&& collate_spec(fv) == Some(r->Ok_0.table_view())
                    &&& r->Ok_0.seen_view() == scanned_keys(fv)
                }
            }),
    {
        let ghost fv = files@.map_values(|f: (PhotoDate, String, String)| (f.0, f.1@, f.2@));
        let mut scan = Scan::new();
        let mut i: usize = 0;
        proof {
            assert(fv.subrange(0, 0) =~= Seq::<FileView>::empty());
            assert(scanned_keys(fv.subrange(0, 0)) =~= Seq::<PhotoDate>::empty());
        }
        while i < files.len()
            invariant
                fv == files@.map_values(|f: (PhotoDate, String, String)| (f.0, f.1@, f.2@)),
                i <= files@.len(),
                scan.wf(),
                collate_spec(fv.subrange(0, i as int)) == Some(scan.table_view()),
                scan.seen_view() == scanned_keys(fv.subrange(0, i as int)),
            decreases files@.len() - i,
        {
            let (key, extension, path) = &files[i];
            let ghost pre = fv.subrange(0, i as int);
            let ghost next = fv.subrange(0, i + 1);
            assert(next.drop_last() =~= pre);
            assert(next.last() == fv[i as int]);
            let r = scan.add(*key, extension.clone(), path.clone());
            if r.is_err() {
                proof {
                    lemma_collate_all(next);
                    let (a, b) = choose|a: int, b: int|
                        0 <= a < b < next.len() && (#[trigger] next[a]).0 == (#[trigger] next[b]).0 && next[a].1
                            == next[b].1;
                    assert(fv[a] == next[a] && fv[b] == next[b]);
                    lemma_collate_all(fv);
                }
                return Err(Duplicate);
            }
            assert(scanned_keys(next) =~= scanned_keys(pre).push(*key));
            i = i + 1;
        }
        proof {
            assert(fv.subrange(0, fv.len() as int) =~= fv);
            lemma_collate_all(fv);
        }
        Ok(scan)
    }

    /// The collation table.
    pub fn table(&self) -> (r: &Collation)
        ensures
            r@ == self.table_view(),
    {
        &self.table
    }

    /// Every key filed, once per file.
    pub fn seen(&self) -> (r: &Vec<PhotoDate>)
        ensures
            r@ == self.seen_view(),
    {
        &self.seen
    }

    /// Files one scanned file; on a duplicate nothing changes.
    pub fn add(&mut self, key: PhotoDate, extension: String, path: String) -> (r: Result<(), Duplicate>)
        requires
            old(self).wf(),
        ensures
            final(self).wf(),
            match insert_spec(old(self).table_view(), key, extension@, path@) {
                Some(t) => {
                    &&& r is Ok
                    &&& final(self).table_view() == t
                    &&& final(self).seen_view() == old(self).seen_view().push(key)
                },
                None => {
                    &&& r is Err
                    &&& final(self).table_view() == old(self).table_view()
                    &&& final(self).seen_view() == old(self).seen_view()
                },
            },
    {
        let ghost t = self.table@;
        let ghost e = extension@;
        let ghost p = path@;
        let r = self.table.insert(key, extension, path);
        if r.is_ok() {
            self.seen.push(key);
            proof {
                lemma_insert_facts(t, key, e, p);
                let u = self.table@;
                self.seen@.drop_last().lemma_push_to_set_commute(key);
                assert(self.seen@.drop_last() == old(self).seen@);
                if has_key(t, key) {
                    let i = choose|i: int| 0 <= i < t.len() && (#[trigger] t[i]).0 == key;
                    assert(keys(t)[i] == key);
                    assert(keys(t).to_set().contains(key));
                    assert(keys(t).to_set().insert(key) =~= keys(t).to_set());
                } else {
                    keys(t).lemma_push_to_set_commute(key);
                }
            }
        }
        r
    }

    /// Numbers the distinct keys seen in ascending order from `start`, and
    /// lists the copies that this numbering asks for. Every numbered key has
    /// its group, so this cannot fail.
    pub fn plan(&self, start: usize) -> (r: (Vec<(usize, PhotoDate)>, Vec<CopyStep>))
        requires
            self.wf(),
            start + self.table_view().len() <= usize::MAX + 1,
        ensures
            assignment_of(self.seen_view(), start as int, r.0@),
            all_present(self.table_view(), r.0@),
            r.0@.len() == self.table_view().len(),
            r.1@.map_values(|s: CopyStep| s.view()) == plan_spec(self.table_view(), r.0@),
    {
        proof {
            let t = self.table@;
            assert(keys(t).no_duplicates()) by {
                assert forall|i: int, j: int| 0 <= i < keys(t).len() && 0 <= j < keys(t).len() && i != j implies keys(t)[i] != keys(t)[j] by {
                    if i < j {
                        assert(t[i].0 != t[j].0);
                    } else {
                        assert(t[j].0 != t[i].0);
                    }
                }
            }
            keys(t).unique_seq_to_set();
        }
        let order = assign(&self.seen, start);
        proof {
            let t = self.table@;
            let ks = order@.map_values(|p: (usize, PhotoDate)| p.1);
            assert forall|i: int| 0 <= i < order@.len() implies has_key(t, (#[trigger] order@[i]).1) by {
                assert(ks[i] == order@[i].1);
                assert(ks.to_set().contains(ks[i]));
                assert(keys(t).to_set().contains(ks[i]));
                let j = choose|j: int| 0 <= j < keys(t).len() && keys(t)[j] == ks[i];
                assert(t[j].0 == ks[i]);
            }
            assert(ks.no_duplicates()) by {
                assert forall|i: int, j: int| 0 <= i < ks.len() && 0 <= j < ks.len() && i != j implies ks[i] != ks[j] by {
                    if i < j {
                        assert(precedes(ks[i], ks[j]));
                    } else {
                        assert(precedes(ks[j], ks[i]));
                    }
                }
            }
            ks.unique_seq_to_set();
        }
        match plan_copies(&self.table, &order) {
            Ok(steps) => (order, steps),
            Err(_) => {
                assert(false);
                (order, Vec::new())
            },
        }
    }
}

} // verus!
