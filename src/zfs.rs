//! Filesystem and snapshot records, the parser for `zfs list` lines, and the
//! configuration of one rotation run.
use crate::text::{
    chars_of, i64_or_zero, parse_i64_or_zero, parse_usize_or_zero, split, split_fields,
    usize_or_zero,
};
use vstd::prelude::*;
use vstd::string::StringExecFns;

verus! {

/// What a listing line describes.
#[derive(Eq, PartialEq, Structural, Copy, Clone, Debug)]
pub enum FsType {
    Filesystem,
    Snapshot,
}

/// The name `zfs list -t` takes for the kind `k`.
pub open spec fn kind_word(k: FsType) -> Seq<char> {
    match k {
        FsType::Snapshot => "snapshot"@,
        FsType::Filesystem => "filesystem"@,
    }
}

impl FsType {
    /// The name `zfs list -t` takes for this kind.
    pub fn as_str(&self) -> (r: &'static str)
        ensures
            r@ == kind_word(*self),
    {
        match self {
            FsType::Snapshot => "snapshot",
            FsType::Filesystem => "filesystem",
        }
    }
}

/// One filesystem or snapshot as `zfs list` reports it.
#[derive(Eq, PartialEq, Debug)]
pub struct FS {
    /// Full name; a snapshot's holds its filesystem's name, `@` and a suffix.
    pub name: String,
    /// Creation time in seconds since the Unix epoch (0 when not reported).
    pub date: i64,
    pub fs_type: FsType,
    /// Whether the auto-snapshot property is set to `true`.
    pub snap: bool,
    /// Bytes used.
    pub written: usize,
    /// Name of the filesystem the record belongs to.
    pub fs: String,
}

/// Failures of the operations on filesystems.
#[derive(Debug)]
pub enum ZfsError {
    /// The `zfs` program could not be run.
    IOError(std::io::Error),
    /// The operation does not apply to the record it was asked for.
    InternalError(String),
    /// A listing line lacks the name or the size field; it holds the line.
    MalformedRecord(String),
}

/// `std::io::Error`, carried unopened in `ZfsError::IOError`.
#[verifier::external_type_specification]
#[verifier::external_body]
pub struct ExIoError(std::io::Error);

impl From<std::io::Error> for ZfsError {
    fn from(e: std::io::Error) -> (r: Self) {
        ZfsError::IOError(e)
    }
}

impl vstd::std_specs::convert::FromSpecImpl<std::io::Error> for ZfsError {
    open spec fn obeys_from_spec() -> bool {
        true
    }

    open spec fn from_spec(e: std::io::Error) -> Self {
        ZfsError::IOError(e)
    }
}

/// The literal that switches the auto-snapshot property on.
pub open spec fn is_true_word(s: Seq<char>) -> bool {
    s == "true"@
}

/// Whether field `k` of `f` exists and reads `true`.
pub open spec fn flag_at(f: Seq<Seq<char>>, k: int) -> bool {
    k < f.len() && is_true_word(f[k])
}

/// The filesystem a record named `name` belongs to.
pub open spec fn owner_of(name: Seq<char>, kind: FsType) -> Seq<char> {
    match kind {
        FsType::Filesystem => name,
        FsType::Snapshot => split(name, '@')[0],
    }
}

/// Whether a listing line has the name and size fields.
pub open spec fn well_formed_line(line: Seq<char>) -> bool {
    split(line, '\t').len() >= 2
}

/// `r` is what the listing line `line` of kind `kind` describes: fields
/// `name, used, inherited flag, local flag, creation`, of which the last
/// three may be missing.
pub open spec fn parsed_from(r: FS, line: Seq<char>, kind: FsType) -> bool {
    let f = split(line, '\t');
    &&& r.name@ == f[0]
    &&& r.written == usize_or_zero(f[1])
    &&& r.snap == (flag_at(f, 2) || flag_at(f, 3))
    &&& r.date == (if f.len() > 4 {
        i64_or_zero(f[4])
    } else {
        0
    })
    &&& r.fs_type == kind
    &&& r.fs@ == owner_of(f[0], kind)
}

/// Parsing is a function of the line and the kind: two records parsed from
/// the same line as the same kind are equal field by field.
pub proof fn lemma_parse_deterministic(a: FS, b: FS, line: Seq<char>, kind: FsType)
    requires
        parsed_from(a, line, kind),
        parsed_from(b, line, kind),
    ensures
        a.name@ == b.name@,
        a.date == b.date,
        a.fs_type == b.fs_type,
        a.snap == b.snap,
        a.written == b.written,
        a.fs@ == b.fs@,
{
}

/// Whether the optional property value `opt` is the literal `true`.
pub fn eval(opt: Option<&&str>) -> (r: bool)
    ensures
        r == (match opt {
            Some(s) => is_true_word(s@),
            None => false,
        }),
{
    match opt {
        Some(s) => {
            let c = chars_of(s);
            proof {
                reveal_strlit("true");
            }
            if c.len() == 4 && c[0] == 't' && c[1] == 'r' && c[2] == 'u' && c[3] == 'e' {
                assert(c@ =~= "true"@);
                true
            } else {
                false
            }
        },
        None => false,
    }
}

/// Parses one line of `zfs list -Hp` output describing a record of kind
/// `fs_type`. Sizes and times that do not read as numbers count as 0.
pub fn str2fs(line: &str, fs_type: FsType) -> (r: Result<FS, ZfsError>)
    ensures
        r is Ok <==> well_formed_line(line@),
        r matches Ok(v) ==> parsed_from(v, line@, fs_type),
        r matches Err(e) ==> (e matches ZfsError::MalformedRecord(s) && s@ == line@),
{
    let p = split_fields(line, '\t');
    if p.len() < 2 {
        return Err(ZfsError::MalformedRecord(String::from_str(line)));
    }
    let name = String::from_str(p[0]);
    let date = if p.len() > 4 {
        parse_i64_or_zero(p[4])
    } else {
        0
    };
    let fs = match fs_type {
        FsType::Filesystem => String::from_str(p[0]),
        FsType::Snapshot => {
            let parts = split_fields(p[0], '@');
            String::from_str(parts[0])
        },
    };
    let snap = eval(p.as_slice().get(2)) || eval(p.as_slice().get(3));
    Ok(FS { name, written: parse_usize_or_zero(p[1]), snap, date, fs_type, fs })
}

/// The non-empty lines of `out`.
pub open spec fn listing_lines(out: Seq<char>) -> Seq<Seq<char>> {
    split(out, '\n').filter(non_empty())
}

/// Whether a line has any character.
pub open spec fn non_empty() -> spec_fn(Seq<char>) -> bool {
    |l: Seq<char>| l.len() > 0
}

/// Parses the output of `zfs list -Hp` for records of kind `fs_type`, one
/// per non-empty line; fails on the first line without a size field.
pub fn parse_listing(output: &str, fs_type: FsType) -> (r: Result<Vec<FS>, ZfsError>)
    ensures
        r is Ok <==> forall|k: int|
            0 <= k < listing_lines(output@).len() ==> well_formed_line(
                #[trigger] listing_lines(output@)[k],
            ),
        r matches Ok(v) ==> v.len() == listing_lines(output@).len() && forall|k: int|
            0 <= k < v.len() ==> parsed_from(#[trigger] v@[k], listing_lines(output@)[k], fs_type),
        r matches Err(e) ==> exists|k: int|
            0 <= k < listing_lines(output@).len() && !well_formed_line(
                #[trigger] listing_lines(output@)[k],
            ) && (e matches ZfsError::MalformedRecord(s) && s@ == listing_lines(output@)[k]),
{
    let ls = split_fields(output, '\n');
    let ghost all = split(output@, '\n');
    let mut v: Vec<FS> = Vec::new();
    let mut i: usize = 0;
    while i < ls.len()
        invariant
            i <= ls.len(),
            all == split(output@, '\n'),
            ls.len() == all.len(),
            forall|k: int| 0 <= k < ls.len() ==> (#[trigger] ls@[k])@ == all[k],
            v.len() == all.take(i as int).filter(non_empty()).len(),
            forall|k: int|
                0 <= k < v.len() ==> parsed_from(
                    #[trigger] v@[k],
                    all.take(i as int).filter(non_empty())[k],
                    fs_type,
                ),
            forall|k: int|
                0 <= k < v.len() ==> well_formed_line(
                    #[trigger] all.take(i as int).filter(non_empty())[k],
                ),
        decreases ls.len() - i,
    {
        let line = ls[i];
        let ghost before = all.take(i as int).filter(non_empty());
        assert(all.take(i + 1) =~= all.take(i as int).push(all[i as int]));
        proof {
            all.take(i as int).lemma_filter_push(all[i as int], non_empty());
        }
        if line.unicode_len() > 0 {
            match str2fs(line, fs_type) {
                Ok(rec) => {
                    v.push(rec);
                },
                Err(e) => {
                    proof {
                        lemma_filter_prefix(all, i + 1, non_empty());
                        assert(all.take(i + 1).filter(non_empty())[v.len() as int] == all[i as int]);
                        assert(v.len() < all.take(i + 1).filter(non_empty()).len());
                        assert(listing_lines(output@)[v.len() as int] == all[i as int]);
                        assert(!well_formed_line(listing_lines(output@)[v.len() as int]));
                    }
                    return Err(e);
                },
            }
        }
        i = i + 1;
    }
    assert(all.take(i as int) =~= all);
    Ok(v)
}

/// Filtering a prefix gives a prefix of the filtered sequence.
proof fn lemma_filter_prefix(s: Seq<Seq<char>>, n: int, p: spec_fn(Seq<char>) -> bool)
    requires
        0 <= n <= s.len(),
    ensures
        s.take(n).filter(p).len() <= s.filter(p).len(),
        forall|k: int|
            0 <= k < s.take(n).filter(p).len() ==> #[trigger] s.take(n).filter(p)[k] == s.filter(
                p,
            )[k],
    decreases s.len() - n,
{
    if n < s.len() {
        lemma_filter_prefix(s, n + 1, p);
        assert(s.take(n + 1) =~= s.take(n).push(s[n]));
        s.take(n).lemma_filter_push(s[n], p);
        assert forall|k: int| 0 <= k < s.take(n).filter(p).len() implies #[trigger] s.take(
            n,
        ).filter(p)[k] == s.filter(p)[k] by {
            assert(s.take(n).filter(p)[k] == s.take(n + 1).filter(p)[k]);
        }
    } else {
        assert(s.take(n) =~= s);
    }
}

/// Settings of one rotation run.
pub struct Zfs {
    /// Path of the `zfs` program.
    pub executable: String,
    /// Dry run: report the changes without making them.
    pub pretend: bool,
    pub prefix: String,
    /// Name of the user property that opts a filesystem in.
    pub option_name: String,
    /// Retention label, such as `hourly` or `daily`.
    pub label: String,
    /// How many of the newest snapshots to keep.
    pub history: usize,
    /// Timestamp that names the snapshots of this run.
    pub timestamp: String,
}

/// `{name}@{prefix}_{label}-{ts}`.
pub open spec fn snapshot_name(
    name: Seq<char>,
    prefix: Seq<char>,
    label: Seq<char>,
    ts: Seq<char>,
) -> Seq<char> {
    name + seq!['@'] + prefix + seq!['_'] + label + seq!['-'] + ts
}

impl Zfs {
    /// Settings for a run with the given prefix, label, retention count and
    /// timestamp, calling `zfs` from the search path.
    pub fn new(pretend: bool, prefix: &str, label: &str, history: usize, date: &str) -> (r: Self)
        ensures
            r.executable@ == "zfs"@,
            r.pretend == pretend,
            r.prefix@ == prefix@,
            r.option_name@ == "com.sun:auto-snapshot"@,
            r.label@ == label@,
            r.history == history,
            r.timestamp@ == date@,
    {
        Self {
            executable: String::from_str("zfs"),
            pretend,
            prefix: String::from_str(prefix),
            option_name: String::from_str("com.sun:auto-snapshot"),
            label: String::from_str(label),
            history,
            timestamp: String::from_str(date),
        }
    }

    /// The same settings, run through the program at `executable`.
    pub fn with_executable(self, executable: &str) -> (r: Self)
        ensures
            r.executable@ == executable@,
            r.pretend == self.pretend,
            r.prefix@ == self.prefix@,
            r.option_name@ == self.option_name@,
            r.label@ == self.label@,
            r.history == self.history,
            r.timestamp@ == self.timestamp@,
    {
        Zfs { executable: String::from_str(executable), ..self }
    }

    /// Name of the snapshot of `name` taken at `timestamp`, by default at
    /// this run's timestamp.
    pub fn sname(&self, name: &str, timestamp: Option<&str>) -> (r: String)
        ensures
            r@ == snapshot_name(
                name@,
                self.prefix@,
                self.label@,
                match timestamp {
                    Some(t) => t@,
                    None => self.timestamp@,
                },
            ),
    {
        let mut r = String::from_str(name);
        r.append("@");
        r.append(self.prefix.as_str());
        r.append("_");
        r.append(self.label.as_str());
        r.append("-");
        match timestamp {
            Some(t) => r.append(t),
            None => r.append(self.timestamp.as_str()),
        }
        proof {
            reveal_strlit("@");
            reveal_strlit("_");
            reveal_strlit("-");
        }
        assert(r@ =~= snapshot_name(
            name@,
            self.prefix@,
            self.label@,
            match timestamp {
                Some(t) => t@,
                None => self.timestamp@,
            },
        ));
        r
    }
}

/// The `-o` column list that `zfs list` is asked for.
pub open spec fn listing_columns(option: Seq<char>, label: Seq<char>) -> Seq<char> {
    "name,used,"@ + option + ","@ + option + ":"@ + label + ",creation"@
}

impl Zfs {
    /// Arguments of the `zfs` call that lists the records of kind `fst`.
    pub fn list_args(&self, fst: FsType) -> (r: Vec<String>)
        ensures
            r.len() == 6,
            r@[0]@ == "list"@,
            r@[1]@ == "-Hp"@,
            r@[2]@ == "-o"@,
            r@[3]@ == listing_columns(self.option_name@, self.label@),
            r@[4]@ == "-t"@,
            r@[5]@ == kind_word(fst),
    {
        let mut columns = String::from_str("name,used,");
        columns.append(self.option_name.as_str());
        columns.append(",");
        columns.append(self.option_name.as_str());
        columns.append(":");
        columns.append(self.label.as_str());
        columns.append(",creation");
        let mut r: Vec<String> = Vec::new();
        r.push(String::from_str("list"));
        r.push(String::from_str("-Hp"));
        r.push(String::from_str("-o"));
        r.push(columns);
        r.push(String::from_str("-t"));
        r.push(String::from_str(fst.as_str()));
        r
    }

    /// Arguments of the `zfs` call that snapshots `fs` at this run's timestamp.
    pub fn create_snapshot_args(&self, fs: &FS) -> (r: Vec<String>)
        ensures
            r.len() == 2,
            r@[0]@ == "snapshot"@,
            r@[1]@ == snapshot_name(fs.name@, self.prefix@, self.label@, self.timestamp@),
    {
        let name = self.sname(fs.name.as_str(), None);
        let mut r: Vec<String> = Vec::new();
        r.push(String::from_str("snapshot"));
        r.push(name);
        r
    }

    /// Arguments of the `zfs` call that destroys `fs`; only a snapshot may
    /// be destroyed.
    pub fn remove_snapshot_args(&self, fs: &FS) -> (r: Result<Vec<String>, ZfsError>)
        ensures
            r is Ok <==> fs.fs_type == FsType::Snapshot,
            r matches Ok(v) ==> v.len() == 2 && v@[0]@ == "destroy"@ && v@[1]@ == fs.name@,
            r matches Err(e) ==> (e matches ZfsError::InternalError(m) && m@
                == "Filesystems can't be removed!"@),
    {
        if fs.fs_type != FsType::Snapshot {
            return Err(ZfsError::InternalError(String::from_str("Filesystems can't be removed!")));
        }
        let mut r: Vec<String> = Vec::new();
        r.push(String::from_str("destroy"));
        r.push(fs.name.clone());
        Ok(r)
    }
}

} // verus!
