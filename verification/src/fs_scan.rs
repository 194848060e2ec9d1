use vstd::prelude::*;
use vstd::string::*;

verus! {

/// Why a scan of the project root failed.
#[derive(Debug, Clone)]
pub enum ScanError {
    /// The root directory does not exist.
    RootNotFound(String),
}

/// The game-record formats that are indexed.
#[derive(Debug, Clone, Copy, PartialEq, Eq, Structural, Hash)]
pub enum KifuKind {
    Kif,
    Ki2,
    Csa,
    Jkf,
}

/// An ASCII upper-case letter as lower case, any other byte as it is.
pub open spec fn spec_ascii_lower(b: u8) -> u8 {
    if 0x41 <= b <= 0x5a {
        (b + 0x20) as u8
    } else {
        b
    }
}

pub fn ascii_lower(b: u8) -> (r: u8)
    ensures
        r == spec_ascii_lower(b),
{
    if 0x41 <= b && b <= 0x5a {
        b + 0x20
    } else {
        b
    }
}

/// Whether byte `b` separates the components of a path.
pub open spec fn is_separator(b: u8) -> bool {
    b == 0x2f || b == 0x5c
}

/// Where the last component of `path` starts: behind its last separator.
pub open spec fn name_start(path: Seq<u8>) -> int
    decreases path.len(),
{
    if path.len() == 0 {
        0
    } else if is_separator(path.last()) {
        path.len() as int
    } else {
        name_start(path.drop_last())
    }
}

/// The index of the last dot of `name`, or -1 if it has none.
pub open spec fn last_dot(name: Seq<u8>) -> int
    decreases name.len(),
{
    if name.len() == 0 {
        -1
    } else if name.last() == 0x2e {
        name.len() - 1
    } else {
        last_dot(name.drop_last())
    }
}

/// The extension of `path`: what follows the last dot of its last
/// component. A name without a dot, or whose only dot is its first byte, has
/// none.
pub open spec fn extension_of(path: Seq<u8>) -> Option<Seq<u8>> {
    let name = path.skip(name_start(path));
    let dot = last_dot(name);
    if dot <= 0 {
        None
    } else {
        Some(name.skip(dot + 1))
    }
}

/// The format that an extension stands for, letter case aside.
pub open spec fn kind_of_extension(ext: Seq<u8>) -> Option<KifuKind> {
    let low = ext.map_values(|b: u8| spec_ascii_lower(b));
    if low == seq![0x6bu8, 0x69u8, 0x66u8] {
        Some(KifuKind::Kif)
    } else if low == seq![0x6bu8, 0x69u8, 0x32u8] {
        Some(KifuKind::Ki2)
    } else if low == seq![0x63u8, 0x73u8, 0x61u8] {
        Some(KifuKind::Csa)
    } else if low == seq![0x6au8, 0x6bu8, 0x66u8] {
        Some(KifuKind::Jkf)
    } else {
        None
    }
}

/// The format of the file at `path`, by its extension.
pub open spec fn kind_of_path(path: Seq<u8>) -> Option<KifuKind> {
    match extension_of(path) {
        Some(ext) => kind_of_extension(ext),
        None => None,
    }
}

fn find_name_start(path: &[u8]) -> (r: usize)
    ensures
        r == name_start(path@),
        r <= path@.len(),
{
    let mut i: usize = path.len();
    proof {
        assert(path@.take(i as int) == path@);
    }
    while i > 0 && !(path[i - 1] == 0x2f || path[i - 1] == 0x5c)
        invariant
            i <= path@.len(),
            name_start(path@) == name_start(path@.take(i as int)),
        decreases i,
    {
        proof {
            assert(path@.take(i as int).drop_last() == path@.take(i - 1));
        }
        i -= 1;
    }
    proof {
        if i > 0 {
            assert(path@.take(i as int).last() == path@[i - 1]);
        }
    }
    i
}

/// Where the extension of `path` starts, if it has one.
pub fn extension_start(path: &[u8]) -> (r: Option<usize>)
    ensures
        match r {
            Some(i) => i <= path@.len() && extension_of(path@) == Some(path@.skip(i as int)),
            None => extension_of(path@) is None,
        },
{
    let start = find_name_start(path);
    let ghost name = path@.skip(start as int);
    let mut i: usize = path.len();
    proof {
        assert(name.take(i - start) == name);
    }
    while i > start && path[i - 1] != 0x2e
        invariant
            start <= i <= path@.len(),
            name == path@.skip(start as int),
            last_dot(name) == last_dot(name.take(i - start)),
        decreases i,
    {
        proof {
            assert(name.take(i - start).drop_last() == name.take(i - 1 - start));
            assert(name.take(i - start).last() == path@[i - 1]);
        }
        i -= 1;
    }
    proof {
        if i > start {
            assert(name.take(i - start).last() == path@[i - 1]);
        }
    }
    if i - start <= 1 {
        return None;
    }
    proof {
        assert(last_dot(name) == i - 1 - start);
        assert(name.skip(i - start) =~= path@.skip(i as int));
    }
    Some(i)
}

impl KifuKind {
    /// The format of the file at `path`, or `None` for a file that is not a
    /// game record: the extensions kif, ki2, csa and jkf count, in any
    /// letter case.
    pub fn from_path(path: &str) -> (k: Option<Self>)
        ensures
            k == kind_of_path(path.spec_bytes()),
    {
        let bytes = path.as_bytes();
        let i = match extension_start(bytes) {
            Some(i) => i,
            None => {
                return None;
            },
        };
        let ghost ext = bytes@.skip(i as int);
        if bytes.len() - i != 3 {
            proof {
                assert(ext.len() != 3);
                assert(ext.map_values(|b: u8| spec_ascii_lower(b)).len() != 3);
            }
            return None;
        }
        let a = ascii_lower(bytes[i]);
        let b = ascii_lower(bytes[i + 1]);
        let c = ascii_lower(bytes[i + 2]);
        proof {
            let low = ext.map_values(|b: u8| spec_ascii_lower(b));
            assert(low =~= seq![a, b, c]);
            assert(seq![a, b, c][0] == a);
            assert(seq![a, b, c][1] == b);
            assert(seq![a, b, c][2] == c);
            assert(seq![0x6bu8, 0x69u8, 0x66u8][0] == 0x6bu8);
            assert(seq![0x6bu8, 0x69u8, 0x66u8][1] == 0x69u8);
            assert(seq![0x6bu8, 0x69u8, 0x66u8][2] == 0x66u8);
            assert(seq![0x6bu8, 0x69u8, 0x32u8][0] == 0x6bu8);
            assert(seq![0x6bu8, 0x69u8, 0x32u8][1] == 0x69u8);
            assert(seq![0x6bu8, 0x69u8, 0x32u8][2] == 0x32u8);
            assert(seq![0x63u8, 0x73u8, 0x61u8][0] == 0x63u8);
            assert(seq![0x63u8, 0x73u8, 0x61u8][1] == 0x73u8);
            assert(seq![0x63u8, 0x73u8, 0x61u8][2] == 0x61u8);
            assert(seq![0x6au8, 0x6bu8, 0x66u8][0] == 0x6au8);
            assert(seq![0x6au8, 0x6bu8, 0x66u8][1] == 0x6bu8);
            assert(seq![0x6au8, 0x6bu8, 0x66u8][2] == 0x66u8);
            if a == 0x6b && b == 0x69 && c == 0x66 {
                assert(low =~= seq![0x6bu8, 0x69u8, 0x66u8]);
            }
            if a == 0x6b && b == 0x69 && c == 0x32 {
                assert(low =~= seq![0x6bu8, 0x69u8, 0x32u8]);
            }
            if a == 0x63 && b == 0x73 && c == 0x61 {
                assert(low =~= seq![0x63u8, 0x73u8, 0x61u8]);
            }
            if a == 0x6a && b == 0x6b && c == 0x66 {
                assert(low =~= seq![0x6au8, 0x6bu8, 0x66u8]);
            }
        }
        if a == 0x6b && b == 0x69 && c == 0x66 {
            Some(KifuKind::Kif)
        } else if a == 0x6b && b == 0x69 && c == 0x32 {
            Some(KifuKind::Ki2)
        } else if a == 0x63 && b == 0x73 && c == 0x61 {
            Some(KifuKind::Csa)
        } else if a == 0x6a && b == 0x6b && c == 0x66 {
            Some(KifuKind::Jkf)
        } else {
            None
        }
    }
}

/// What a scan records of one file. No file content is read for it.
#[derive(Debug, Clone)]
pub struct FileRecord {
    pub path: String,
    pub kind: KifuKind,
    pub size: u64,
    pub mtime_ms: u128,
}

/// Whether some record of `s` has the path `p`.
pub open spec fn has_path(s: Seq<FileRecord>, p: Seq<char>) -> bool {
    exists|i: int| 0 <= i < s.len() && #[trigger] s[i].path@ == p
}

/// The first index in `s` of a record with the path `p`.
pub open spec fn index_of_path(s: Seq<FileRecord>, p: Seq<char>) -> int {
    choose|i: int|
        0 <= i < s.len() && #[trigger] s[i].path@ == p && forall|j: int|
            0 <= j < i ==> (#[trigger] s[j]).path@ != p
}

/// No two records of `s` have the same path.
pub open spec fn paths_unique(s: Seq<FileRecord>) -> bool {
    forall|i: int, j: int| 0 <= i < j < s.len() ==> s[i].path@ != s[j].path@
}

/// `s` after record `r` was put in: it replaces the record of the same
/// path, or comes last if there is none.
pub open spec fn put_record(s: Seq<FileRecord>, r: FileRecord) -> Seq<FileRecord> {
    if has_path(s, r.path@) {
        s.update(index_of_path(s, r.path@), r)
    } else {
        s.push(r)
    }
}

/// The records of a scan keyed by path: of several records with one path
/// the last one counts.
pub open spec fn keyed_by_path(records: Seq<FileRecord>) -> Seq<FileRecord>
    decreases records.len(),
{
    if records.len() == 0 {
        Seq::empty()
    } else {
        put_record(keyed_by_path(records.drop_last()), records.last())
    }
}

/// The first index in `v` of a record with the path `p`.
pub fn find_path(v: &Vec<FileRecord>, p: &String) -> (r: Option<usize>)
    ensures
        match r {
            Some(i) => has_path(v@, p@) && i == index_of_path(v@, p@) && i < v@.len() && v@[i as int].path@
                == p@,
            None => !has_path(v@, p@),
        },
{
    let mut i: usize = 0;
    while i < v.len()
        invariant
            i <= v.len(),
            forall|j: int| 0 <= j < i ==> (#[trigger] v@[j]).path@ != p@,
        decreases v.len() - i,
    {
        if v[i].path == *p {
            proof {
                let k = index_of_path(v@, p@);
                assert(v@[i as int].path@ == p@);
                if k < i {
                    assert(v@[k].path@ != p@);
                }
                if i < k {
                    assert(v@[i as int].path@ != p@);
                }
            }
            return Some(i);
        }
        i += 1;
    }
    None
}

/// The state of the project directory at one scan: one record per path.
#[derive(Debug, Clone)]
pub struct ScanSnapshot {
    pub by_path: Vec<FileRecord>,
    pub root_dir: String,
}

impl ScanSnapshot {
    /// A snapshot holds one record per path.
    pub open spec fn wf(&self) -> bool {
        paths_unique(self.by_path@)
    }

    /// A snapshot without records and without a root.
    pub fn new() -> (s: Self)
        ensures
            s.by_path@.len() == 0,
            s.root_dir@.len() == 0,
            s.wf(),
    {
        let root_dir = String::new();
        ScanSnapshot { by_path: Vec::new(), root_dir }
    }
}

/// What changed between two scans.
#[derive(Debug, Clone)]
pub struct ScanDiff {
    pub added: Vec<FileRecord>,
    pub modified: Vec<FileRecord>,
    pub removed: Vec<String>,
}

/// What a scan skips and whether it follows links.
#[derive(Debug, Clone)]
pub struct ScanOptions {
    pub ignore_dir_names: Vec<String>,
    pub follow_links: bool,
}

impl ScanOptions {
    /// Whether a directory of the name `name` is left out of a scan.
    pub open spec fn ignores(&self, name: Seq<char>) -> bool {
        exists|i: int|
            0 <= i < self.ignore_dir_names@.len() && (#[trigger] self.ignore_dir_names@[i])@
                == name
    }

    /// The usual options: links are not followed, and the directories
    /// `.git`, `node_modules` and `target` are skipped.
    pub fn default_options() -> (o: Self)
        ensures
            !o.follow_links,
            o.ignore_dir_names@.len() == 3,
            o.ignore_dir_names@[0]@ == ".git"@,
            o.ignore_dir_names@[1]@ == "node_modules"@,
            o.ignore_dir_names@[2]@ == "target"@,
    {
        let mut ignore: Vec<String> = Vec::new();
        ignore.push(".git".to_owned());
        ignore.push("node_modules".to_owned());
        ignore.push("target".to_owned());
        ScanOptions { ignore_dir_names: ignore, follow_links: false }
    }

    /// Whether a scan passes over the entry named `name`: only directories
    /// whose name is on the ignore list are skipped.
    pub fn should_skip_dir(&self, name: &String, is_dir: bool) -> (skip: bool)
        ensures
            skip == (is_dir && self.ignores(name@)),
    {
        if !is_dir {
            return false;
        }
        let mut i: usize = 0;
        while i < self.ignore_dir_names.len()
            invariant
                is_dir,
                i <= self.ignore_dir_names.len(),
                forall|j: int| 0 <= j < i ==> (#[trigger] self.ignore_dir_names@[j])@ != name@,
            decreases self.ignore_dir_names.len() - i,
        {
            if self.ignore_dir_names[i] == *name {
                proof {
                    assert(self.ignore_dir_names@[i as int]@ == name@);
                }
                return true;
            }
            i += 1;
        }
        false
    }
}

impl Default for ScanOptions {
    fn default() -> (o: Self)
        ensures
            !o.follow_links,
            o.ignore_dir_names@.len() == 3,
            o.ignore_dir_names@[0]@ == ".git"@,
            o.ignore_dir_names@[1]@ == "node_modules"@,
            o.ignore_dir_names@[2]@ == "target"@,
    {
        ScanOptions::default_options()
    }
}

impl Default for ScanSnapshot {
    fn default() -> (s: Self)
        ensures
            s.by_path@.len() == 0,
            s.root_dir@.len() == 0,
            s.wf(),
    {
        ScanSnapshot::new()
    }
}

proof fn lemma_put_record_unique(s: Seq<FileRecord>, r: FileRecord)
    requires
        paths_unique(s),
    ensures
        paths_unique(put_record(s, r)),
{
    let t = put_record(s, r);
    if has_path(s, r.path@) {
        let k = index_of_path(s, r.path@);
        assert forall|i: int, j: int| 0 <= i < j < t.len() implies t[i].path@ != t[j].path@ by {
            assert(t[i].path@ == s[i].path@);
            assert(t[j].path@ == s[j].path@);
        }
    } else {
        assert forall|i: int, j: int| 0 <= i < j < t.len() implies t[i].path@ != t[j].path@ by {
            if j == s.len() {
                assert(s[i].path@ != r.path@);
            }
        }
    }
}

/// Builds the snapshot of a scan: the records keyed by path, under the root
/// that was scanned.
pub fn snapshot_from_records(root_dir: &str, records: Vec<FileRecord>) -> (snap: ScanSnapshot)
    ensures
        snap.wf(),
        snap.root_dir@ == root_dir@,
        snap.by_path@ == keyed_by_path(records@),
{
    let mut out: Vec<FileRecord> = Vec::with_capacity(records.len());
    let mut rest = crate::index_store::reversed(records);
    let ghost n = records@.len();
    let ghost mut done: int = 0;
    while rest.len() > 0
        invariant
            n == records@.len(),
            0 <= done <= n,
            done + rest@.len() == n,
            rest@ == records@.reverse().take(rest@.len() as int),
            out@ == keyed_by_path(records@.take(done)),
            paths_unique(out@),
        decreases rest@.len(),
    {
        let r = rest.pop().unwrap();
        proof {
            assert(records@.reverse()[n - 1 - done] == records@[done]);
            assert(records@.take(done + 1).drop_last() == records@.take(done));
            assert(records@.take(done + 1).last() == r);
            lemma_put_record_unique(out@, r);
            done = done + 1;
        }
        match find_path(&out, &r.path) {
            Some(i) => {
                out.set(i, r);
            },
            None => {
                out.push(r);
            },
        }
    }
    proof {
        assert(records@.take(done) == records@);
    }
    ScanSnapshot { by_path: out, root_dir: root_dir.to_owned() }
}

/// The test for a record whose path `prev` does not have.
pub open spec fn is_added(prev: Seq<FileRecord>) -> spec_fn(FileRecord) -> bool {
    |r: FileRecord| !has_path(prev, r.path@)
}

/// The test for a record whose path `prev` has with another size or
/// modification time.
pub open spec fn is_modified(prev: Seq<FileRecord>) -> spec_fn(FileRecord) -> bool {
    |r: FileRecord|
        has_path(prev, r.path@) && {
            let p = prev[index_of_path(prev, r.path@)];
            p.size != r.size || p.mtime_ms != r.mtime_ms
        }
}

/// The paths of `s` as text.
pub open spec fn path_views(s: Seq<String>) -> Seq<Seq<char>> {
    s.map_values(|p: String| p@)
}

/// The paths of the records of `s`.
pub open spec fn record_paths(s: Seq<FileRecord>) -> Seq<Seq<char>> {
    s.map_values(|r: FileRecord| r.path@)
}

/// Compares two scans by path, size and modification time alone: `added`
/// holds the records of `next` whose path `prev` lacks, `modified` those
/// whose path `prev` has with another size or modification time, both in the
/// order of `next`; `removed` holds the paths of `prev` that `next` lacks,
/// in the order of `prev`.
pub fn diff_snapshot(prev: &ScanSnapshot, next: &ScanSnapshot) -> (diff: ScanDiff)
    ensures
        diff.added@ == next.by_path@.filter(is_added(prev.by_path@)),
        diff.modified@ == next.by_path@.filter(is_modified(prev.by_path@)),
        path_views(diff.removed@) == record_paths(prev.by_path@.filter(is_added(next.by_path@))),
{
    let mut added: Vec<FileRecord> = Vec::new();
    let mut modified: Vec<FileRecord> = Vec::new();
    let mut removed: Vec<String> = Vec::new();
    let ghost add = is_added(prev.by_path@);
    let ghost modi = is_modified(prev.by_path@);
    let ghost gone = is_added(next.by_path@);
    let mut i: usize = 0;
    while i < next.by_path.len()
        invariant
            i <= next.by_path.len(),
            add == is_added(prev.by_path@),
            modi == is_modified(prev.by_path@),
            added@ == next.by_path@.take(i as int).filter(add),
            modified@ == next.by_path@.take(i as int).filter(modi),
        decreases next.by_path.len() - i,
    {
        let r = &next.by_path[i];
        proof {
            let t = next.by_path@.take(i + 1);
            assert(t.drop_last() == next.by_path@.take(i as int));
            assert(t.last() == *r);
            reveal_with_fuel(Seq::filter, 2);
        }
        match find_path(&prev.by_path, &r.path) {
            None => {
                added.push(r.clone_record());
            },
            Some(k) => {
                let p = &prev.by_path[k];
                if p.size != r.size || p.mtime_ms != r.mtime_ms {
                    modified.push(r.clone_record());
                }
            },
        }
        i += 1;
    }
    proof {
        assert(next.by_path@.take(i as int) == next.by_path@);
    }
    let mut j: usize = 0;
    while j < prev.by_path.len()
        invariant
            j <= prev.by_path.len(),
            gone == is_added(next.by_path@),
            path_views(removed@) == record_paths(prev.by_path@.take(j as int).filter(gone)),
        decreases prev.by_path.len() - j,
    {
        let r = &prev.by_path[j];
        proof {
            let t = prev.by_path@.take(j + 1);
            assert(t.drop_last() == prev.by_path@.take(j as int));
            assert(t.last() == *r);
            reveal_with_fuel(Seq::filter, 2);
        }
        if find_path(&next.by_path, &r.path).is_none() {
            let ghost before = removed@;
            removed.push(r.path.clone());
            proof {
                assert(path_views(removed@) =~= path_views(before).push(r.path@));
                assert(record_paths(prev.by_path@.take(j + 1).filter(gone)) =~= record_paths(
                    prev.by_path@.take(j as int).filter(gone),
                ).push(r.path@));
            }
        }
        j += 1;
    }
    proof {
        assert(prev.by_path@.take(j as int) == prev.by_path@);
    }
    ScanDiff { added, modified, removed }
}

impl FileRecord {
    /// A copy of the record.
    pub fn clone_record(&self) -> (r: Self)
        ensures
            r == *self,
    {
        FileRecord {
            path: self.path.clone(),
            kind: self.kind,
            size: self.size,
            mtime_ms: self.mtime_ms,
        }
    }
}

/// The key a path is filed under: the path itself, as text.
pub fn path_key(p: &str) -> (k: String)
    ensures
        k@ == p@,
{
    p.to_owned()
}

/// The order of paths: byte by byte, a path before every longer path that
/// it begins.
pub open spec fn bytes_le(a: Seq<u8>, b: Seq<u8>) -> bool
    decreases a.len(),
{
    if a.len() == 0 {
        true
    } else if b.len() == 0 {
        false
    } else if a[0] != b[0] {
        a[0] < b[0]
    } else {
        bytes_le(a.skip(1), b.skip(1))
    }
}

/// Whether the path of `a` comes before that of `b`, or is the same.
pub open spec fn path_le(a: FileRecord, b: FileRecord) -> bool {
    bytes_le(vstd::utf8::encode_utf8(a.path@), vstd::utf8::encode_utf8(b.path@))
}

pub proof fn lemma_bytes_le_total(a: Seq<u8>, b: Seq<u8>)
    ensures
        bytes_le(a, b) || bytes_le(b, a),
    decreases a.len(),
{
    if a.len() > 0 && b.len() > 0 && a[0] == b[0] {
        lemma_bytes_le_total(a.skip(1), b.skip(1));
    }
}

pub proof fn lemma_bytes_le_trans(a: Seq<u8>, b: Seq<u8>, c: Seq<u8>)
    requires
        bytes_le(a, b),
        bytes_le(b, c),
    ensures
        bytes_le(a, c),
    decreases a.len(),
{
    if a.len() > 0 && b.len() > 0 && c.len() > 0 && a[0] == b[0] && b[0] == c[0] {
        lemma_bytes_le_trans(a.skip(1), b.skip(1), c.skip(1));
    }
}

/// Paths never come in a later-before-earlier order along `s`.
pub open spec fn sorted_paths(s: Seq<FileRecord>) -> bool {
    forall|i: int, j: int| 0 <= i <= j < s.len() ==> path_le(s[i], s[j])
}

/// `s` with `r` put behind the last record whose path is not after that of
/// `r` (for sorted `s`).
pub open spec fn insert_by_path(s: Seq<FileRecord>, r: FileRecord) -> Seq<FileRecord>
    decreases s.len(),
{
    if s.len() == 0 {
        seq![r]
    } else if path_le(s.last(), r) {
        s.push(r)
    } else {
        insert_by_path(s.drop_last(), r).push(s.last())
    }
}

/// The records in the order of their paths; records of one path keep their
/// order.
pub open spec fn sorted_by_path(s: Seq<FileRecord>) -> Seq<FileRecord>
    decreases s.len(),
{
    if s.len() == 0 {
        s
    } else {
        insert_by_path(sorted_by_path(s.drop_last()), s.last())
    }
}

proof fn lemma_insert_by_path_at(s: Seq<FileRecord>, r: FileRecord, j: int)
    requires
        0 <= j <= s.len(),
        forall|k: int| j <= k < s.len() ==> !path_le(#[trigger] s[k], r),
        j > 0 ==> path_le(s[j - 1], r),
    ensures
        insert_by_path(s, r) == s.insert(j, r),
    decreases s.len(),
{
    if s.len() == 0 {
        assert(s.insert(j, r) =~= seq![r]);
    } else if j == s.len() {
        assert(s.insert(j, r) =~= s.push(r));
    } else {
        assert(!path_le(s[s.len() - 1], r));
        lemma_insert_by_path_at(s.drop_last(), r, j);
        assert(s.insert(j, r) =~= s.drop_last().insert(j, r).push(s.last()));
    }
}

proof fn lemma_insert_keeps_sorted(s: Seq<FileRecord>, r: FileRecord, j: int)
    requires
        sorted_paths(s),
        0 <= j <= s.len(),
        forall|k: int| j <= k < s.len() ==> !path_le(#[trigger] s[k], r),
        j > 0 ==> path_le(s[j - 1], r),
    ensures
        sorted_paths(s.insert(j, r)),
        s.insert(j, r).to_multiset() == s.to_multiset().insert(r),
{
    let t = s.insert(j, r);
    let rb = vstd::utf8::encode_utf8(r.path@);
    assert forall|a: int, b: int| 0 <= a <= b < t.len() implies path_le(t[a], t[b]) by {
        let a0 = if a < j { a } else { a - 1 };
        let b0 = if b < j { b } else { b - 1 };
        if a == j && b == j {
            lemma_bytes_le_total(rb, rb);
        } else if a == j {
            // r before a later record: that record is not before r
            assert(!path_le(s[b0], r));
            lemma_bytes_le_total(vstd::utf8::encode_utf8(s[b0].path@), rb);
        } else if b == j {
            // an earlier record before r, through the one just before r
            assert(path_le(s[a0], s[j - 1]));
            lemma_bytes_le_trans(
                vstd::utf8::encode_utf8(s[a0].path@),
                vstd::utf8::encode_utf8(s[j - 1].path@),
                rb,
            );
        } else {
            assert(path_le(s[a0], s[b0]));
        }
    }
    broadcast use vstd::seq_lib::group_to_multiset_ensures;

    vstd::seq_lib::to_multiset_insert(s, j, r);
}

/// Whether the path `a` is not after the path `b`.
pub fn path_not_after(a: &str, b: &str) -> (r: bool)
    ensures
        r == bytes_le(a.spec_bytes(), b.spec_bytes()),
{
    let x = a.as_bytes();
    let y = b.as_bytes();
    let mut i: usize = 0;
    proof {
        assert(x@.skip(0) =~= x@);
        assert(y@.skip(0) =~= y@);
    }
    while i < x.len() && i < y.len()
        invariant
            i <= x@.len(),
            i <= y@.len(),
            x@ == a.spec_bytes(),
            y@ == b.spec_bytes(),
            bytes_le(x@, y@) == bytes_le(x@.skip(i as int), y@.skip(i as int)),
        decreases x@.len() - i,
    {
        proof {
            assert(x@.skip(i as int)[0] == x@[i as int]);
            assert(y@.skip(i as int)[0] == y@[i as int]);
            assert(x@.skip(i as int).skip(1) =~= x@.skip(i + 1));
            assert(y@.skip(i as int).skip(1) =~= y@.skip(i + 1));
        }
        if x[i] != y[i] {
            return x[i] < y[i];
        }
        i += 1;
    }
    i >= x.len()
}

/// Sorts the records of a scan by path, so that a full build gives out its
/// file ids in an order that does not depend on how the directory was
/// walked.
pub fn sort_records_by_path(records: Vec<FileRecord>) -> (out: Vec<FileRecord>)
    ensures
        out@ == sorted_by_path(records@),
        sorted_paths(out@),
        out@.to_multiset() == records@.to_multiset(),
{
    let mut out: Vec<FileRecord> = Vec::with_capacity(records.len());
    let mut rest = crate::index_store::reversed(records);
    let ghost n = records@.len();
    let ghost mut done: int = 0;
    proof {
        broadcast use vstd::seq_lib::group_to_multiset_ensures;

        assert(records@.take(0) =~= Seq::<FileRecord>::empty());
    }
    while rest.len() > 0
        invariant
            n == records@.len(),
            0 <= done <= n,
            done + rest@.len() == n,
            rest@ == records@.reverse().take(rest@.len() as int),
            out@ == sorted_by_path(records@.take(done)),
            sorted_paths(out@),
            out@.to_multiset() == records@.take(done).to_multiset(),
        decreases rest@.len(),
    {
        let r = rest.pop().unwrap();
        let mut j: usize = out.len();
        while j > 0 && !path_not_after(out[j - 1].path.as_str(), r.path.as_str())
            invariant
                j <= out.len(),
                forall|k: int| j <= k < out@.len() ==> !path_le(#[trigger] out@[k], r),
            decreases j,
        {
            j -= 1;
        }
        proof {
            broadcast use vstd::seq_lib::group_to_multiset_ensures;

            assert(records@.reverse()[n - 1 - done] == records@[done]);
            let t = records@.take(done + 1);
            assert(t.drop_last() == records@.take(done));
            assert(t.last() == r);
            assert(t =~= records@.take(done).push(r));
            lemma_insert_by_path_at(out@, r, j as int);
            lemma_insert_keeps_sorted(out@, r, j as int);
            done = done + 1;
        }
        out.insert(j, r);
    }
    proof {
        assert(records@.take(done) == records@);
    }
    out
}

} // verus!
