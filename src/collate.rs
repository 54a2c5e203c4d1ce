//! The collation table: files grouped by capture instant, one path per
//! extension within each instant.
use vstd::prelude::*;
use crate::datetime::PhotoDate;

verus! {

/// One file of a group: its extension (`.ext`, or empty) and its source path.
pub struct FileEntry {
    pub extension: String,
    pub path: String,
}

/// The files that share one capture instant.
pub struct Group {
    pub key: PhotoDate,
    pub files: Vec<FileEntry>,
}

/// A second file with a capture instant and an extension already in the table.
#[derive(Debug, Clone, Copy, PartialEq, Eq)]
pub struct Duplicate;

/// Files collated by capture instant, in order of first appearance.
pub struct Collation {
    groups: Vec<Group>,
}

/// An entry as (extension, path).
pub type EntryView = (Seq<char>, Seq<char>);

/// A group as (key, entries).
pub type GroupView = (PhotoDate, Seq<EntryView>);

impl FileEntry {
    pub open spec fn view(&self) -> EntryView {
        (self.extension@, self.path@)
    }
}

impl Group {
    pub open spec fn view(&self) -> GroupView {
        (self.key, self.files@.map_values(|f: FileEntry| f.view()))
    }
}

impl View for Collation {
    type V = Seq<GroupView>;

    closed spec fn view(&self) -> Seq<GroupView> {
        self.groups@.map_values(|g: Group| g.view())
    }
}

pub open spec fn has_key(t: Seq<GroupView>, k: PhotoDate) -> bool {
    exists|i: int| 0 <= i < t.len() && (#[trigger] t[i]).0 == k
}

/// The position of the group of `k`, where there is one.
pub open spec fn key_index(t: Seq<GroupView>, k: PhotoDate) -> int {
    choose|i: int| 0 <= i < t.len() && (#[trigger] t[i]).0 == k
}

pub open spec fn has_extension(files: Seq<EntryView>, e: Seq<char>) -> bool {
    exists|j: int| 0 <= j < files.len() && (#[trigger] files[j]).0 == e
}

/// Whether the table files `p` under key `k` and extension `e`.
pub open spec fn holds(t: Seq<GroupView>, k: PhotoDate, e: Seq<char>, p: Seq<char>) -> bool {
    exists|i: int, j: int|
        0 <= i < t.len() && 0 <= j < t[i].1.len() && #[trigger] t[i].1[j] == (e, p) && t[i].0 == k
}

/// Keys are distinct, every group has a file, and extensions are distinct
/// within a group.
pub open spec fn well_formed(t: Seq<GroupView>) -> bool {
    &&& forall|i: int, j: int| 0 <= i < j < t.len() ==> (#[trigger] t[i]).0 != (#[trigger] t[j]).0
    &&& forall|i: int| 0 <= i < t.len() ==> (#[trigger] t[i]).1.len() > 0
    &&& forall|i: int, a: int, b: int|
        0 <= i < t.len() && 0 <= a < b < t[i].1.len() ==> (#[trigger] t[i].1[a]).0 != (#[trigger] t[i].1[b]).0
}

/// The table after filing `p` under `k` and `e`, or `None` where `e` is
/// already filed under `k`.
pub open spec fn insert_spec(t: Seq<GroupView>, k: PhotoDate, e: Seq<char>, p: Seq<char>) -> Option<Seq<GroupView>> {
    if has_key(t, k) {
        let i = key_index(t, k);
        if has_extension(t[i].1, e) {
            None
        } else {
            Some(t.update(i, (k, t[i].1.push((e, p)))))
        }
    } else {
        Some(t.push((k, seq![(e, p)])))
    }
}

proof fn lemma_add_to_group(t: Seq<GroupView>, i: int, entry: EntryView)
    requires
        well_formed(t),
        0 <= i < t.len(),
        !has_extension(t[i].1, entry.0),
    ensures
        well_formed(t.update(i, (t[i].0, t[i].1.push(entry)))),
{
    let u = t.update(i, (t[i].0, t[i].1.push(entry)));
    assert forall|g: int, a: int, b: int|
        0 <= g < u.len() && 0 <= a < b < u[g].1.len() implies (#[trigger] u[g].1[a]).0 != (#[trigger] u[g].1[b]).0 by {
        if g == i && b == t[i].1.len() {
            assert(u[g].1[a] == t[i].1[a]);
        }
    }
}

/// The keys of a table, in order.
pub open spec fn keys(t: Seq<GroupView>) -> Seq<PhotoDate> {
    t.map_values(|g: GroupView| g.0)
}

proof fn lemma_refused_iff_filed(t: Seq<GroupView>, k: PhotoDate, e: Seq<char>, p: Seq<char>)
    requires
        well_formed(t),
    ensures
        insert_spec(t, k, e, p) is None <==> exists|q: Seq<char>| #[trigger] holds(t, k, e, q),
{
    if has_key(t, k) {
        let i = key_index(t, k);
        if has_extension(t[i].1, e) {
            let j = choose|j: int| 0 <= j < t[i].1.len() && (#[trigger] t[i].1[j]).0 == e;
            assert(holds(t, k, e, t[i].1[j].1));
        }
        if exists|q: Seq<char>| #[trigger] holds(t, k, e, q) {
            let q = choose|q: Seq<char>| #[trigger] holds(t, k, e, q);
            let (a, j) = choose|a: int, j: int|
                0 <= a < t.len() && 0 <= j < t[a].1.len() && #[trigger] t[a].1[j] == (e, q) && t[a].0 == k;
            assert(a == i);
            assert(t[i].1[j].0 == e);
        }
    } else {
        if exists|q: Seq<char>| #[trigger] holds(t, k, e, q) {
            let q = choose|q: Seq<char>| #[trigger] holds(t, k, e, q);
            let (a, j) = choose|a: int, j: int|
                0 <= a < t.len() && 0 <= j < t[a].1.len() && #[trigger] t[a].1[j] == (e, q) && t[a].0 == k;
            assert(t[a].0 == k);
        }
    }
}

pub(crate) proof fn lemma_insert_facts(t: Seq<GroupView>, k: PhotoDate, e: Seq<char>, p: Seq<char>)
    requires
        well_formed(t),
        insert_spec(t, k, e, p) is Some,
    ensures
        well_formed(insert_spec(t, k, e, p)->Some_0),
        has_key(insert_spec(t, k, e, p)->Some_0, k),
        keys(insert_spec(t, k, e, p)->Some_0) == if has_key(t, k) {
            keys(t)
        } else {
            keys(t).push(k)
        },
        forall|k2: PhotoDate, e2: Seq<char>, p2: Seq<char>|
            #[trigger] holds(insert_spec(t, k, e, p)->Some_0, k2, e2, p2) <==> holds(t, k2, e2, p2) || (k2
                == k && e2 == e && p2 == p),
{
    let u = insert_spec(t, k, e, p)->Some_0;
    if has_key(t, k) {
        let i = key_index(t, k);
        lemma_add_to_group(t, i, (e, p));
        assert(u[i].0 == k);
        assert(keys(u) =~= keys(t));
        assert forall|k2: PhotoDate, e2: Seq<char>, p2: Seq<char>|
            #[trigger] holds(u, k2, e2, p2) <==> holds(t, k2, e2, p2) || (k2 == k && e2 == e && p2 == p) by {
            if holds(u, k2, e2, p2) {
                let (a, j) = choose|a: int, j: int|
                    0 <= a < u.len() && 0 <= j < u[a].1.len() && #[trigger] u[a].1[j] == (e2, p2) && u[a].0 == k2;
                if a != i || j < t[i].1.len() {
                    assert(t[a].1[j] == (e2, p2));
                }
            }
            if holds(t, k2, e2, p2) {
                let (a, j) = choose|a: int, j: int|
                    0 <= a < t.len() && 0 <= j < t[a].1.len() && #[trigger] t[a].1[j] == (e2, p2) && t[a].0 == k2;
                assert(u[a].1[j] == (e2, p2));
            }
            if k2 == k && e2 == e && p2 == p {
                assert(u[i].1[t[i].1.len() as int] == (e2, p2));
            }
        }
    } else {
        assert(u[t.len() as int].0 == k);
        assert(keys(u) =~= keys(t).push(k));
        assert forall|g: int, a: int, b: int|
            0 <= g < u.len() && 0 <= a < b < u[g].1.len() implies (#[trigger] u[g].1[a]).0 != (#[trigger] u[g].1[b]).0 by {
            if g < t.len() {
                assert(u[g] == t[g]);
            }
        }
        assert forall|i: int, j: int| 0 <= i < j < u.len() implies (#[trigger] u[i]).0 != (#[trigger] u[j]).0 by {
            if j == t.len() {
                assert(t[i].0 != k);
            }
        }
        assert forall|k2: PhotoDate, e2: Seq<char>, p2: Seq<char>|
            #[trigger] holds(u, k2, e2, p2) <==> holds(t, k2, e2, p2) || (k2 == k && e2 == e && p2 == p) by {
            if holds(u, k2, e2, p2) {
                let (a, j) = choose|a: int, j: int|
                    0 <= a < u.len() && 0 <= j < u[a].1.len() && #[trigger] u[a].1[j] == (e2, p2) && u[a].0 == k2;
                if a < t.len() {
                    assert(t[a].1[j] == (e2, p2));
                }
            }
            if holds(t, k2, e2, p2) {
                let (a, j) = choose|a: int, j: int|
                    0 <= a < t.len() && 0 <= j < t[a].1.len() && #[trigger] t[a].1[j] == (e2, p2) && t[a].0 == k2;
                assert(u[a].1[j] == (e2, p2));
            }
            if k2 == k && e2 == e && p2 == p {
                assert(u[t.len() as int].1[0] == (e2, p2));
            }
        }
    }
}

/// Filing a second path under a capture instant and extension that are
/// already filed is refused, and the path filed first stays the only one
/// under them.
pub proof fn lemma_duplicate_keeps_first(
    t: Seq<GroupView>,
    k: PhotoDate,
    e: Seq<char>,
    first: Seq<char>,
    second: Seq<char>,
)
    requires
        well_formed(t),
        insert_spec(t, k, e, first) is Some,
    ensures
        insert_spec(insert_spec(t, k, e, first)->Some_0, k, e, second) is None,
        holds(insert_spec(t, k, e, first)->Some_0, k, e, first),
        forall|q: Seq<char>| #[trigger] holds(insert_spec(t, k, e, first)->Some_0, k, e, q) ==> q == first,
{
    let u = insert_spec(t, k, e, first)->Some_0;
    lemma_insert_facts(t, k, e, first);
    lemma_refused_iff_filed(t, k, e, first);
    lemma_refused_iff_filed(u, k, e, second);
    assert(holds(u, k, e, first));
}

/// Two files of one capture instant with different extensions are collated
/// under that one key whichever is filed first: both orders succeed, keep
/// the table well formed, list the same keys in the same order, and file
/// exactly the same paths under the same keys and extensions.
pub proof fn lemma_scan_order_irrelevant(
    t: Seq<GroupView>,
    k: PhotoDate,
    e1: Seq<char>,
    p1: Seq<char>,
    e2: Seq<char>,
    p2: Seq<char>,
)
    requires
        well_formed(t),
        e1 != e2,
        insert_spec(t, k, e1, p1) is Some,
        insert_spec(t, k, e2, p2) is Some,
    ensures
        insert_spec(insert_spec(t, k, e1, p1)->Some_0, k, e2, p2) is Some,
        insert_spec(insert_spec(t, k, e2, p2)->Some_0, k, e1, p1) is Some,
        ({
            let ab = insert_spec(insert_spec(t, k, e1, p1)->Some_0, k, e2, p2)->Some_0;
            let ba = insert_spec(insert_spec(t, k, e2, p2)->Some_0, k, e1, p1)->Some_0;
            &&& well_formed(ab)
            &&& well_formed(ba)
            &&& keys(ab) == keys(ba)
            &&& holds(ab, k, e1, p1) && holds(ab, k, e2, p2)
            &&& forall|k2: PhotoDate, e: Seq<char>, p: Seq<char>|
                #[trigger] holds(ab, k2, e, p) == holds(ba, k2, e, p)
        }),
{
    let a = insert_spec(t, k, e1, p1)->Some_0;
    let b = insert_spec(t, k, e2, p2)->Some_0;
    lemma_insert_facts(t, k, e1, p1);
    lemma_insert_facts(t, k, e2, p2);
    lemma_refused_iff_filed(t, k, e1, p1);
    lemma_refused_iff_filed(t, k, e2, p2);
    lemma_refused_iff_filed(a, k, e2, p2);
    lemma_refused_iff_filed(b, k, e1, p1);
    if exists|q: Seq<char>| #[trigger] holds(a, k, e2, q) {
        let q = choose|q: Seq<char>| #[trigger] holds(a, k, e2, q);
        assert(holds(t, k, e2, q));
    }
    if exists|q: Seq<char>| #[trigger] holds(b, k, e1, q) {
        let q = choose|q: Seq<char>| #[trigger] holds(b, k, e1, q);
        assert(holds(t, k, e1, q));
    }
    lemma_insert_facts(a, k, e2, p2);
    lemma_insert_facts(b, k, e1, p1);
    let ab = insert_spec(a, k, e2, p2)->Some_0;
    let ba = insert_spec(b, k, e1, p1)->Some_0;
    assert(holds(ab, k, e1, p1));
    assert(holds(ab, k, e2, p2));
    assert forall|k2: PhotoDate, e: Seq<char>, p: Seq<char>| #[trigger] holds(ab, k2, e, p) == holds(ba, k2, e, p) by {
        assert(holds(ab, k2, e, p) == holds(a, k2, e, p) || (k2 == k && e == e2 && p == p2));
        assert(holds(ba, k2, e, p) == holds(b, k2, e, p) || (k2 == k && e == e1 && p == p1));
        assert(holds(a, k2, e, p) == holds(t, k2, e, p) || (k2 == k && e == e1 && p == p1));
        assert(holds(b, k2, e, p) == holds(t, k2, e, p) || (k2 == k && e == e2 && p == p2));
    }
}

/// A scanned file as (key, extension, path).
pub type FileView = (PhotoDate, Seq<char>, Seq<char>);

/// The table that filing `files` in order builds, or `None` where one of the
/// insertions is refused.
pub open spec fn collate_spec(files: Seq<FileView>) -> Option<Seq<GroupView>>
    decreases files.len(),
{
    if files.len() == 0 {
        Some(Seq::empty())
    } else {
        match collate_spec(files.drop_last()) {
            None => None,
            Some(t) => insert_spec(t, files.last().0, files.last().1, files.last().2),
        }
    }
}

/// Two different files share both key and extension.
pub open spec fn has_clash(files: Seq<FileView>) -> bool {
    exists|a: int, b: int|
        0 <= a < b < files.len() && (#[trigger] files[a]).0 == (#[trigger] files[b]).0 && files[a].1 == files[b].1
}

/// Filing a whole scan, in whatever order, is refused exactly when two files
/// share a key and an extension; otherwise the table is well formed and files
/// exactly the scanned (key, extension, path) triples.
pub proof fn lemma_collate_all(files: Seq<FileView>)
    ensures
        collate_spec(files) is None <==> has_clash(files),
        collate_spec(files) is Some ==> well_formed(collate_spec(files)->Some_0),
        collate_spec(files) is Some ==> forall|k: PhotoDate, e: Seq<char>, p: Seq<char>|
            #[trigger] holds(collate_spec(files)->Some_0, k, e, p) <==> files.contains((k, e, p)),
    decreases files.len(),
{
    if files.len() == 0 {
        assert(well_formed(Seq::<GroupView>::empty()));
    } else {
        let n = files.len() - 1;
        let pre = files.drop_last();
        let f = files.last();
        lemma_collate_all(pre);
        if has_clash(pre) {
            let (a, b) = choose|a: int, b: int|
                0 <= a < b < pre.len() && (#[trigger] pre[a]).0 == (#[trigger] pre[b]).0 && pre[a].1 == pre[b].1;
            assert(files[a] == pre[a] && files[b] == pre[b]);
        } else {
            let t = collate_spec(pre)->Some_0;
            lemma_refused_iff_filed(t, f.0, f.1, f.2);
            if has_clash(files) {
                let (a, b) = choose|a: int, b: int|
                    0 <= a < b < files.len() && (#[trigger] files[a]).0 == (#[trigger] files[b]).0 && files[a].1
                        == files[b].1;
                if b < n {
                    assert(pre[a] == files[a] && pre[b] == files[b]);
                }
                assert(b == n);
                assert(pre[a] == files[a]);
                assert(pre.contains((f.0, f.1, files[a].2)));
                assert(holds(t, f.0, f.1, files[a].2));
            }
            if exists|q: Seq<char>| #[trigger] holds(t, f.0, f.1, q) {
                let q = choose|q: Seq<char>| #[trigger] holds(t, f.0, f.1, q);
                assert(pre.contains((f.0, f.1, q)));
                let a = choose|a: int| 0 <= a < pre.len() && pre[a] == (f.0, f.1, q);
                assert(files[a] == pre[a]);
                assert(files[n] == f);
            }
            if collate_spec(files) is Some {
                lemma_insert_facts(t, f.0, f.1, f.2);
                assert forall|k: PhotoDate, e: Seq<char>, p: Seq<char>|
                    #[trigger] holds(collate_spec(files)->Some_0, k, e, p) <==> files.contains((k, e, p)) by {
                    if files.contains((k, e, p)) {
                        let a = choose|a: int| 0 <= a < files.len() && files[a] == (k, e, p);
                        if a < n {
                            assert(pre[a] == files[a]);
                        }
                    }
                    if pre.contains((k, e, p)) {
                        let a = choose|a: int| 0 <= a < pre.len() && pre[a] == (k, e, p);
                        assert(files[a] == pre[a]);
                    }
                    if (k, e, p) == f {
                        assert(files[n] == f);
                    }
                }
            }
        }
    }
}

impl Collation {
    pub open spec fn wf(&self) -> bool {
        well_formed(self@)
    }

    /// An empty table.
    pub fn new() -> (r: Collation)
        ensures
            r@ == Seq::<GroupView>::empty(),
            r.wf(),
    {
        let r = Collation { groups: Vec::new() };
        assert(r@ =~= Seq::<GroupView>::empty());
        r
    }

    /// The groups, in order of first appearance.
    pub fn groups(&self) -> (r: &Vec<Group>)
        ensures
            r@.map_values(|g: Group| g.view()) == self@,
    {
        &self.groups
    }

    /// Files `path` under `key` and `extension`; refuses, leaving the table as
    /// it was, where that extension is already filed under that key.
    pub fn insert(&mut self, key: PhotoDate, extension: String, path: String) -> (r: Result<(), Duplicate>)
        requires
            old(self).wf(),
        ensures
            final(self).wf(),
            match insert_spec(old(self)@, key, extension@, path@) {
                Some(t) => r is Ok && final(self)@ == t,
                None => r is Err && final(self)@ == old(self)@,
            },
    {
        let ghost before = self@;
        assert(before == old(self)@);
        let mut i: usize = 0;
        while i < self.groups.len()
            invariant
                self@ == before,
                before == old(self)@,
                well_formed(before),
                i <= self.groups@.len() == before.len(),
                forall|a: int| 0 <= a < i ==> (#[trigger] before[a]).0 != key,
            decreases self.groups@.len() - i,
        {
            if self.groups[i].key == key {
                assert(before[i as int].0 == key);
                assert(key_index(before, key) == i);
                let ghost files = before[i as int].1;
                let mut j: usize = 0;
                while j < self.groups[i].files.len()
                    invariant
                        self@ == before,
                        before == old(self)@,
                        well_formed(before),
                        key_index(before, key) == i,
                        has_key(before, key),
                        i < self.groups@.len() == before.len(),
                        files == before[i as int].1,
                        files == self.groups@[i as int].view().1,
                        j <= files.len() == self.groups@[i as int].files@.len(),
                        forall|b: int| 0 <= b < j ==> (#[trigger] files[b]).0 != extension@,
                    decreases files.len() - j,
                {
                    if self.groups[i].files[j].extension == extension {
                        assert(files[j as int].0 == extension@);
                        assert(has_extension(before[i as int].1, extension@));
                        assert(insert_spec(before, key, extension@, path@) is None);
                        return Err(Duplicate);
                    }
                    j = j + 1;
                }
                let ghost entry = (extension@, path@);
                assert(!has_extension(files, extension@));
                assert(insert_spec(before, key, extension@, path@) == Some(before.update(i as int, (key, files.push(entry)))));
                self.groups[i].files.push(FileEntry { extension, path });
                assert(self.groups@[i as int].view().1 =~= files.push(entry));
                assert(self@ =~= before.update(i as int, (key, files.push(entry))));
                proof {
                    lemma_add_to_group(before, i as int, entry);
                }
                return Ok(());
            }
            i = i + 1;
        }
        let ghost entry = (extension@, path@);
        let mut files: Vec<FileEntry> = Vec::new();
        files.push(FileEntry { extension, path });
        self.groups.push(Group { key, files });
        assert(self.groups@.last().view().1 =~= seq![entry]);
        assert(self@ =~= before.push((key, seq![entry])));
        assert(!has_key(before, key));
        Ok(())
    }
}

} // verus!
