//! Naming the log files of a store directory.
//!
//! A log is named `kvsdb-` followed by 32 lowercase hexadecimal digits and
//! `.log`; while a compaction runs, its fresh log carries `.compact` instead.
//! Paths are strings with `/` between their parts.
use vstd::prelude::*;
use vstd::string::*;
use vstd::utf8::*;

verus! {

/// `kvsdb-`, what every log's name begins with.
pub open spec fn log_prefix() -> Seq<char> {
    "kvsdb-"@
}

/// `.log`.
pub open spec fn log_extension() -> Seq<char> {
    ".log"@
}

/// `.compact`.
pub open spec fn compact_extension() -> Seq<char> {
    ".compact"@
}

/// Whether `c` is a lowercase hexadecimal digit.
pub open spec fn is_lower_hex(c: char) -> bool {
    ('0' <= c && c <= '9') || ('a' <= c && c <= 'f')
}

/// Whether `s` is a log's id: 32 lowercase hexadecimal digits.
pub open spec fn is_log_id(s: Seq<char>) -> bool {
    s.len() == 32 && forall|i: int| 0 <= i < s.len() ==> is_lower_hex(#[trigger] s[i])
}

/// Whether `b` is the byte of a lowercase hexadecimal digit.
pub open spec fn is_lower_hex_byte(b: u8) -> bool {
    (48 <= b && b <= 57) || (97 <= b && b <= 102)
}

/// Whether the bytes of a file name are those of a log's name: `kvsdb-`,
/// 32 lowercase hexadecimal digits, and `.log`.
pub open spec fn is_db_log_name(b: Seq<u8>) -> bool {
    &&& b.len() == 42
    &&& b.take(6) == seq![107u8, 118, 115, 100, 98, 45]
    &&& forall|i: int| 6 <= i < 38 ==> is_lower_hex_byte(#[trigger] b[i])
    &&& b.skip(38) == seq![46u8, 108, 111, 103]
}

/// The directory part of a path: everything up to its last `/`, that one
/// included; nothing where it has none.
pub open spec fn dir_of(p: Seq<char>) -> Seq<char>
    decreases p.len(),
{
    if p.len() == 0 {
        p
    } else if p.last() == '/' {
        p
    } else {
        dir_of(p.drop_last())
    }
}

/// The path of `name` inside `dir`.
pub open spec fn join(dir: Seq<char>, name: Seq<char>) -> Seq<char> {
    if dir.len() == 0 || dir.last() == '/' {
        dir + name
    } else {
        dir + seq!['/'] + name
    }
}

/// The name of the log with the given id.
pub open spec fn log_name(id: Seq<char>) -> Seq<char> {
    log_prefix() + id + log_extension()
}

/// The name of the compaction file with the given id.
pub open spec fn compact_name(id: Seq<char>) -> Seq<char> {
    log_prefix() + id + compact_extension()
}

/// What a compaction file's path becomes once the compaction is done: its
/// `.compact` replaced by `.log`, or `.log` added where it has no `.compact`.
pub open spec fn finalized(p: Seq<char>) -> Seq<char> {
    if p.len() >= 8 && p.skip(p.len() - 8) == compact_extension() {
        p.take(p.len() - 8) + log_extension()
    } else {
        p + log_extension()
    }
}

/// A file in a store directory: its name, its time of last change, and
/// whether it is a regular file.
pub struct DirEntry {
    /// The file's name.
    pub name: String,
    /// The time of its last change, in any unit that orders times.
    pub modified: u128,
    /// Whether it is a regular file.
    pub is_file: bool,
}

/// Whether `e` is a store's log.
pub open spec fn is_log_entry(e: DirEntry) -> bool {
    e.is_file && is_db_log_name(encode_utf8(e.name@))
}

/// The position of the newest log among `es`: the first of those changed
/// last.
pub open spec fn newest_log(es: Seq<DirEntry>) -> Option<int>
    decreases es.len(),
{
    if es.len() == 0 {
        None
    } else {
        let before = newest_log(es.drop_last());
        let e = es.last();
        if is_log_entry(e) && (before matches Some(b) ==> e.modified > es[b].modified) {
            Some(es.len() - 1)
        } else {
            before
        }
    }
}

/// Relies on uuid's `Uuid::new_v4` for a random id, written by its `Simple`
/// formatter as 32 lowercase hexadecimal digits.
#[verifier::external_body]
fn fresh_log_id() -> (r: String)
    ensures
        is_log_id(r@),
{
    uuid::Uuid::new_v4().to_simple().to_string()
}

/// Whether a file name is that of a log.
pub fn is_db_log_file_name(name: &str) -> (r: bool)
    ensures
        r == is_db_log_name(encode_utf8(name@)),
{
    let b = name.as_bytes();
    if b.len() != 42 {
        return false;
    }
    let ok = b[0] == 107 && b[1] == 118 && b[2] == 115 && b[3] == 100 && b[4] == 98 && b[5] == 45
        && b[38] == 46 && b[39] == 108 && b[40] == 111 && b[41] == 103;
    assert(ok == (b@.take(6) =~= seq![107u8, 118, 115, 100, 98, 45] && b@.skip(38) =~= seq![
        46u8,
        108,
        111,
        103,
    ]));
    if !ok {
        return false;
    }
    let mut i: usize = 6;
    while i < 38
        invariant
            6 <= i <= 38,
            b@ == encode_utf8(name@),
            b@.len() == 42,
            b@.take(6) == seq![107u8, 118, 115, 100, 98, 45],
            b@.skip(38) == seq![46u8, 108, 111, 103],
            forall|j: int| 6 <= j < i ==> is_lower_hex_byte(#[trigger] b@[j]),
        decreases 38 - i,
    {
        let c = b[i];
        if !((48 <= c && c <= 57) || (97 <= c && c <= 102)) {
            assert(!is_lower_hex_byte(b@[i as int]));
            return false;
        }
        i = i + 1;
    }
    true
}

/// The path of `name` inside `dir`.
pub fn join_path(dir: &str, name: &str) -> (r: String)
    ensures
        r@ == join(dir@, name@),
{
    let n = dir.unicode_len();
    let mut r = dir.to_owned();
    if n > 0 && dir.get_char(n - 1) != '/' {
        r.append("/");
        proof {
            reveal_strlit("/");
        }
    }
    r.append(name);
    r
}

/// The directory part of `p`.
fn dir_part(p: &str) -> (r: &str)
    ensures
        r@ == dir_of(p@),
{
    let mut i = p.unicode_len();
    assert(p@.subrange(0, i as int) =~= p@);
    while i > 0
        invariant
            0 <= i <= p@.len(),
            dir_of(p@) == dir_of(p@.subrange(0, i as int)),
        decreases i,
    {
        if p.get_char(i - 1) == '/' {
            assert(dir_of(p@.subrange(0, i as int)) == p@.subrange(0, i as int));
            return p.substring_char(0, i);
        }
        assert(p@.subrange(0, i as int).drop_last() == p@.subrange(0, i - 1));
        i = i - 1;
    }
    p.substring_char(0, 0)
}

/// The path of the log with id `id` inside `dir`.
pub fn db_log_path(dir: &str, id: &str) -> (r: String)
    ensures
        r@ == join(dir@, log_name(id@)),
{
    let mut name = String::new();
    name.append("kvsdb-");
    name.append(id);
    name.append(".log");
    join_path(dir, name.as_str())
}

/// A path for a new log inside `dir`, with a fresh random id.
pub fn make_db_log_path(dir: &str) -> (r: String)
    ensures
        exists|id: Seq<char>| is_log_id(id) && r@ == join(dir@, log_name(id)),
{
    let id = fresh_log_id();
    db_log_path(dir, id.as_str())
}

/// The path of the compaction file with id `id` beside the log at
/// `existing_path`.
pub fn compact_path_for(existing_path: &str, id: &str) -> (r: String)
    ensures
        r@ == dir_of(existing_path@) + compact_name(id@),
{
    let mut r = dir_part(existing_path).to_owned();
    r.append("kvsdb-");
    r.append(id);
    r.append(".compact");
    r
}

/// A path for a fresh compaction file, with a random id, beside the log at
/// `existing_path`.
pub fn make_next_db_log_path(existing_path: &str) -> (r: String)
    ensures
        exists|id: Seq<char>| is_log_id(id) && r@ == dir_of(existing_path@) + compact_name(id),
{
    let id = fresh_log_id();
    compact_path_for(existing_path, id.as_str())
}

/// The path that the compaction file at `path` takes once compaction is done.
pub fn finalize_compacted_filename(path: &str) -> (r: String)
    ensures
        r@ == finalized(path@),
{
    let n = path.unicode_len();
    proof {
        reveal_strlit(".compact");
    }
    if n >= 8 {
        let tail = path.substring_char(n - 8, n);
        assert(tail@ =~= path@.skip(n - 8));
        let mut same = true;
        let ext = ".compact";
        let mut i: usize = 0;
        while i < 8
            invariant
                0 <= i <= 8,
                ext@ == compact_extension(),
                ext@.len() == 8,
                tail@.len() == 8,
                tail@ == path@.skip(n - 8),
                n == path@.len(),
                same == (forall|j: int| 0 <= j < i ==> tail@[j] == ext@[j]),
            decreases 8 - i,
        {
            if tail.get_char(i) != ext.get_char(i) {
                same = false;
            }
            i = i + 1;
        }
        assert(same == (tail@ =~= compact_extension()));
        if same {
            let mut r = path.substring_char(0, n - 8).to_owned();
            r.append(".log");
            return r;
        }
    }
    let mut r = path.to_owned();
    r.append(".log");
    r
}

/// The path of the log that a store in `dir` uses: the newest of the logs
/// among `entries`, the files that `dir` holds, or, where there is none, a
/// new one with a fresh random id.
pub fn use_existing_or_create_new_db_log_path(dir: &str, entries: &Vec<DirEntry>) -> (r: String)
    ensures
        match newest_log(entries@) {
            Some(i) => r@ == join(dir@, entries@[i].name@),
            None => exists|id: Seq<char>| is_log_id(id) && r@ == join(dir@, log_name(id)),
        },
{
    match latest_log_for_dir(entries) {
        Some(i) => join_path(dir, entries[i].name.as_str()),
        None => make_db_log_path(dir),
    }
}

/// The position of the newest log among `entries`.
pub fn latest_log_for_dir(entries: &Vec<DirEntry>) -> (r: Option<usize>)
    ensures
        match r {
            Some(i) => newest_log(entries@) == Some(i as int) && i < entries@.len(),
            None => newest_log(entries@) is None,
        },
{
    let mut best: Option<usize> = None;
    let mut i: usize = 0;
    while i < entries.len()
        invariant
            0 <= i <= entries@.len(),
            best matches Some(b) ==> b < i,
            match best {
                Some(b) => newest_log(entries@.take(i as int)) == Some(b as int) && b < i,
                None => newest_log(entries@.take(i as int)) is None,
            },
        decreases entries@.len() - i,
    {
        let e = &entries[i];
        let ghost t = entries@.take(i as int + 1);
        assert(t.drop_last() =~= entries@.take(i as int));
        assert(t.last() == entries@[i as int]);
        let newer = match best {
            Some(b) => e.modified > entries[b].modified,
            None => true,
        };
        if e.is_file && is_db_log_file_name(e.name.as_str()) && newer {
            best = Some(i);
        }
        i = i + 1;
    }
    assert(entries@.take(i as int) =~= entries@);
    best
}

} // verus!
