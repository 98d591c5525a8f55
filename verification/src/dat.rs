use vstd::prelude::*;
use vstd::utf8::{valid_utf8, decode_utf8};
use crate::bytes::{be_i32_at, le_u32_at, read_be_i32, read_le_u32, read_u8, read_slice};
use crate::error::DatError;
use crate::tree::{FileEntry, FileTree, NodeV, NodeKind, spec_insert_at};
use crate::paths::{path_parts, string_from_utf8};
use crate::FileState;

verus! {

/// The two container layouts, or nothing when no archive was read.
#[derive(PartialEq, Eq, Debug, Default, Clone, Copy, Structural)]
pub enum Version {
    #[default]
    Unknown,
    Dat1,
    Dat2,
}

/// One parsed row: the full path an entry is filed under, and the entry.
pub type SpecRow = (Seq<char>, FileEntry);

/// The views of parsed rows.
pub open spec fn row_views(s: Seq<(String, FileEntry)>) -> Seq<SpecRow> {
    s.map_values(|p: (String, FileEntry)| (p.0@, p.1))
}

/// How the first twelve bytes classify the container: three big-endian
/// words `dir_count`, `id`, `zero`.
pub open spec fn spec_version(data: Seq<u8>) -> Version {
    if be_i32_at(data, 0) > 0 && (be_i32_at(data, 4) == 0x0A || be_i32_at(data, 4) == 0x5E)
        && be_i32_at(data, 8) == 0 {
        Version::Dat1
    } else {
        Version::Dat2
    }
}

/// The compression state of a legacy record: stored raw when the packed
/// size is zero or the text attribute bit is set.
pub open spec fn d1_state(attributes: i32, size_compressed: i32) -> FileState {
    if size_compressed == 0 || attributes & 0x20 != 0 {
        FileState::Uncompressed
    } else {
        FileState::Compressed { size: size_compressed as usize }
    }
}

/// Reads `cnt` length-prefixed names from `pos`: the position after
/// them and the decoded names. A name that is not valid UTF-8, or a
/// read past the end, is an error.
pub open spec fn d1_names(data: Seq<u8>, pos: int, cnt: int) -> Result<
    (int, Seq<Seq<char>>),
    DatError,
>
    decreases cnt,
{
    if cnt <= 0 {
        Ok((pos, Seq::empty()))
    } else if pos + 1 > data.len() {
        Err(DatError::ReadError)
    } else {
        let l = data[pos] as int;
        if pos + 1 + l > data.len() {
            Err(DatError::ReadError)
        } else {
            let b = data.subrange(pos + 1, pos + 1 + l);
            if !valid_utf8(b) {
                Err(DatError::ReadError)
            } else {
                match d1_names(data, pos + 1 + l, cnt - 1) {
                    Ok((p, rest)) => Ok((p, seq![decode_utf8(b)] + rest)),
                    Err(e) => Err(e),
                }
            }
        }
    }
}

/// The path a file is filed under: the file name alone for the root
/// directory `.`, else the directory and name joined by a backslash.
pub open spec fn d1_path(dir: Seq<char>, name: Seq<char>) -> Seq<char> {
    if dir == seq!['.'] {
        name
    } else {
        dir + seq!['\\'] + name
    }
}

/// Reads `cnt` file records of one directory from `pos`: a name, then
/// `attributes`, `offset`, `size` and `size_compressed`.
pub open spec fn d1_files(data: Seq<u8>, pos: int, dir: Seq<char>, cnt: int) -> Result<
    (int, Seq<SpecRow>),
    DatError,
>
    decreases cnt,
{
    if cnt <= 0 {
        Ok((pos, Seq::empty()))
    } else if pos + 1 > data.len() {
        Err(DatError::ReadError)
    } else {
        let l = data[pos] as int;
        if pos + 1 + l + 16 > data.len() {
            Err(DatError::ReadError)
        } else {
            let b = data.subrange(pos + 1, pos + 1 + l);
            if !valid_utf8(b) {
                Err(DatError::ReadError)
            } else {
                let name = decode_utf8(b);
                let attributes = be_i32_at(data, pos + 1 + l);
                let offset = be_i32_at(data, pos + 1 + l + 4);
                let size = be_i32_at(data, pos + 1 + l + 8);
                let size_compressed = be_i32_at(data, pos + 1 + l + 12);
                let entry = FileEntry {
                    offset: offset as usize,
                    size: size as usize,
                    state: d1_state(attributes, size_compressed),
                };
                match d1_files(data, pos + 1 + l + 16, dir, cnt - 1) {
                    Ok((p, rest)) => Ok((p, seq![(d1_path(dir, name), entry)] + rest)),
                    Err(e) => Err(e),
                }
            }
        }
    }
}

/// Reads the contents of every directory in header order: for each, a
/// `file_count` word, three reserved words, then the file records.
pub open spec fn d1_dirs(data: Seq<u8>, pos: int, names: Seq<Seq<char>>, i: int) -> Result<
    (int, Seq<SpecRow>),
    DatError,
>
    decreases names.len() - i,
{
    if i >= names.len() {
        Ok((pos, Seq::empty()))
    } else if pos + 16 > data.len() {
        Err(DatError::ReadError)
    } else {
        let fc = be_i32_at(data, pos);
        match d1_files(data, pos + 16, names[i], fc as int) {
            Ok((p1, rows)) => match d1_dirs(data, p1, names, i + 1) {
                Ok((p2, rest)) => Ok((p2, rows + rest)),
                Err(e) => Err(e),
            },
            Err(e) => Err(e),
        }
    }
}

/// What a legacy (format 1) archive parses to: its rows, in header
/// order. The stream holds `dir_count`, `id`, `zero`, a checksum that
/// is read and not validated, the directory names, then each
/// directory's contents.
pub open spec fn parse_dat1(data: Seq<u8>) -> Result<Seq<SpecRow>, DatError> {
    if 16 > data.len() {
        Err(DatError::ReadError)
    } else {
        let dir_count = be_i32_at(data, 0);
        match d1_names(data, 16, dir_count as int) {
            Ok((p, names)) => match d1_dirs(data, p, names, 0) {
                Ok((_, rows)) => Ok(rows),
                Err(e) => Err(e),
            },
            Err(e) => Err(e),
        }
    }
}

/// Sum of the `file_count` words of the directory headers, read the way
/// the parser walks them (a negative count contributes nothing).
pub open spec fn d1_file_count_sum(data: Seq<u8>, pos: int, names: Seq<Seq<char>>, i: int) -> int
    decreases names.len() - i,
{
    if i >= names.len() || pos + 16 > data.len() {
        0
    } else {
        let fc = be_i32_at(data, pos);
        let here = if fc >= 0 {
            fc as int
        } else {
            0
        };
        here + match d1_files(data, pos + 16, names[i], fc as int) {
            Ok((p1, _)) => d1_file_count_sum(data, p1, names, i + 1),
            Err(_) => 0,
        }
    }
}

/// A successful directory walk yields exactly as many rows as the
/// `file_count` words announce.
pub proof fn lemma_d1_dirs_count(data: Seq<u8>, pos: int, names: Seq<Seq<char>>, i: int)
    ensures
        d1_dirs(data, pos, names, i) matches Ok((p, rows)) ==> rows.len() == d1_file_count_sum(
            data,
            pos,
            names,
            i,
        ),
    decreases names.len() - i,
{
    if i < names.len() && pos + 16 <= data.len() {
        let fc = be_i32_at(data, pos);
        lemma_d1_files_count(data, pos + 16, names[i], fc as int);
        match d1_files(data, pos + 16, names[i], fc as int) {
            Ok((p1, _)) => {
                lemma_d1_dirs_count(data, p1, names, i + 1);
            },
            Err(_) => {},
        }
    }
}

/// A successful file walk yields exactly `cnt` rows.
pub proof fn lemma_d1_files_count(data: Seq<u8>, pos: int, dir: Seq<char>, cnt: int)
    ensures
        d1_files(data, pos, dir, cnt) matches Ok((p, rows)) ==> rows.len() == (if cnt >= 0 {
            cnt
        } else {
            0
        }),
    decreases cnt,
{
    if cnt > 0 && pos + 1 <= data.len() {
        let l = data[pos] as int;
        if pos + 1 + l + 16 <= data.len() {
            lemma_d1_files_count(data, pos + 1 + l + 16, dir, cnt - 1);
        }
    }
}


/// Reads up to `cnt` fixed records from the scratch buffer of a format-2
/// tree table, stopping early without error when the buffer runs out.
pub open spec fn d2_records(buf: Seq<u8>, pos: int, cnt: int) -> Result<Seq<SpecRow>, DatError>
    decreases cnt,
{
    if cnt <= 0 || pos + 4 > buf.len() {
        Ok(Seq::empty())
    } else {
        let nl = le_u32_at(buf, pos) as int;
        if pos + 4 + nl + 13 > buf.len() {
            Ok(Seq::empty())
        } else {
            let b = buf.subrange(pos + 4, pos + 4 + nl);
            if !valid_utf8(b) {
                Err(DatError::ReadError)
            } else {
                let name = decode_utf8(b);
                let t = buf[pos + 4 + nl];
                let real_size = le_u32_at(buf, pos + 4 + nl + 1);
                let packed_size = le_u32_at(buf, pos + 4 + nl + 5);
                let offset = le_u32_at(buf, pos + 4 + nl + 9);
                let entry = FileEntry {
                    offset: offset as usize,
                    size: real_size as usize,
                    state: if t == 0 {
                        FileState::Uncompressed
                    } else {
                        FileState::Compressed { size: packed_size as usize }
                    },
                };
                match d2_records(buf, pos + 4 + nl + 13, cnt - 1) {
                    Ok(rest) => Ok(seq![(name, entry)] + rest),
                    Err(e) => Err(e),
                }
            }
        }
    }
}

/// Where the format-2 tree table sits, from the two trailer words: at
/// `data_size - tree_size - 4 - 4` stands `file_count`, then the table.
pub open spec fn d2_tree_start(data: Seq<u8>) -> int {
    le_u32_at(data, data.len() - 4) as int - le_u32_at(data, data.len() - 8) as int - 4
}

/// What a format-2 archive parses to: up to `file_count` rows out of
/// the tree table named by the trailer.
pub open spec fn parse_dat2(data: Seq<u8>) -> Result<Seq<SpecRow>, DatError> {
    if data.len() < 8 {
        Err(DatError::ReadError)
    } else {
        let tree_size = le_u32_at(data, data.len() - 8) as int;
        let start = d2_tree_start(data);
        if start < 4 || start + tree_size > data.len() {
            Err(DatError::ReadError)
        } else {
            let file_count = le_u32_at(data, start - 4) as int;
            d2_records(data.subrange(start, start + tree_size), 0, file_count)
        }
    }
}

/// A successful record walk yields at most `cnt` rows.
pub proof fn lemma_d2_records_count(buf: Seq<u8>, pos: int, cnt: int)
    ensures
        d2_records(buf, pos, cnt) matches Ok(rows) ==> rows.len() <= (if cnt >= 0 {
            cnt
        } else {
            0
        }),
    decreases cnt,
{
    if cnt > 0 && pos + 4 <= buf.len() {
        let nl = le_u32_at(buf, pos) as int;
        if pos + 4 + nl + 13 <= buf.len() {
            lemma_d2_records_count(buf, pos + 4 + nl + 13, cnt - 1);
        }
    }
}

/// A tree table too short for its announced records — under the
/// seventeen bytes even an empty-named record occupies — yields
/// strictly fewer rows than announced, still without error.
proof fn lemma_d2_records_short(buf: Seq<u8>, pos: int, cnt: int)
    requires
        0 <= pos,
        cnt > 0,
        buf.len() - pos < 17 * cnt,
    ensures
        d2_records(buf, pos, cnt) matches Ok(rows) ==> rows.len() < cnt,
    decreases cnt,
{
    if pos + 4 <= buf.len() {
        let nl = le_u32_at(buf, pos) as int;
        if pos + 4 + nl + 13 <= buf.len() {
            // a whole record fits, so at least seventeen bytes were there
            assert(buf.len() - pos >= 17 + nl);
            assert(cnt > 1);
            assert(buf.len() - (pos + 4 + nl + 13) < 17 * (cnt - 1));
            lemma_d2_records_short(buf, pos + 4 + nl + 13, cnt - 1);
        }
    }
}

/// A format-2 parse whose tree table is shorter than its `file_count`
/// word demands ends without error and yields strictly fewer rows than
/// announced.
pub proof fn lemma_dat2_truncated_table(data: Seq<u8>)
    ensures
        parse_dat2(data) matches Ok(rows) ==> {
            let tree_size = le_u32_at(data, data.len() - 8) as int;
            let file_count = le_u32_at(data, d2_tree_start(data) - 4) as int;
            (file_count > 0 && tree_size < 17 * file_count) ==> rows.len() < file_count
        },
{
    if data.len() >= 8 {
        let tree_size = le_u32_at(data, data.len() - 8) as int;
        let start = d2_tree_start(data);
        if start >= 4 && start + tree_size <= data.len() {
            let file_count = le_u32_at(data, start - 4) as int;
            if file_count > 0 && tree_size < 17 * file_count {
                lemma_d2_records_short(data.subrange(start, start + tree_size), 0, file_count);
            }
        }
    }
}

/// Inserting one row into a tree shape.
pub open spec fn tree_insert(v: NodeV, path: Seq<char>, entry: FileEntry, keep_sorted: bool) -> Result<
    NodeV,
    DatError,
> {
    spec_insert_at(v, path_parts(path), 0, seq!['.'], entry, keep_sorted)
}

/// The shape of a freshly created tree.
pub open spec fn empty_root() -> NodeV {
    NodeV {
        name: seq!['.'],
        path: Seq::<char>::empty(),
        kind: NodeKind::Dir { children: Seq::<NodeV>::empty() },
    }
}

/// The rows from `i` on, folded into a tree shape by unsorted insertion.
pub open spec fn build_tree(rows: Seq<SpecRow>, i: int, v: NodeV) -> Result<NodeV, DatError>
    decreases rows.len() - i,
{
    if i >= rows.len() {
        Ok(v)
    } else {
        match tree_insert(v, rows[i].0, rows[i].1, false) {
            Ok(v2) => build_tree(rows, i + 1, v2),
            Err(e) => Err(e),
        }
    }
}

/// The finished index of a parse: every row inserted unsorted into an
/// empty tree, then one sort pass over the whole tree.
pub open spec fn archive_tree(rows: Seq<SpecRow>) -> Result<NodeV, DatError> {
    match build_tree(rows, 0, empty_root()) {
        Ok(t) => Ok(t.sort_rec()),
        Err(e) => Err(e),
    }
}

/// Prepends rows to the payload of a walk that also returns a position.
pub open spec fn with_found<T>(prefix: Seq<T>, r: Result<(int, Seq<T>), DatError>) -> Result<
    (int, Seq<T>),
    DatError,
> {
    match r {
        Ok((p, rest)) => Ok((p, prefix + rest)),
        Err(e) => Err(e),
    }
}

proof fn lemma_with_found_assoc<T>(a: Seq<T>, b: Seq<T>, r: Result<(int, Seq<T>), DatError>)
    ensures
        with_found(a, with_found(b, r)) == with_found(a + b, r),
{
    match r {
        Ok((p, rest)) => {
            assert(a + (b + rest) =~= (a + b) + rest);
        },
        Err(_) => {},
    }
}

/// Checks whether a string is the single dot that names the root.
fn is_dot(s: &String) -> (r: bool)
    ensures
        r == (s@ == seq!['.']),
{
    if s.unicode_len() == 1 && s.as_str().get_char(0) == '.' {
        proof {
            assert(s@ =~= seq!['.']);
        }
        true
    } else {
        false
    }
}

/// Reads the directory names of a legacy header.
#[verifier::loop_isolation(false)]
fn parse_d1_names(data: &Vec<u8>, start: usize, cnt: i32) -> (r: Result<
    (usize, Vec<String>),
    DatError,
>)
    requires
        start <= data@.len(),
    ensures
        r matches Ok((p2, ns)) ==> start <= p2 <= data@.len(),
        (match d1_names(data@, start as int, cnt as int) {
            Ok((p, names)) => r matches Ok((p2, ns)) && p2 == p && ns@.map_values(|s: String| s@)
                == names,
            Err(e) => r == Err::<(usize, Vec<String>), DatError>(e),
        }),
{
    let ghost goal = d1_names(data@, start as int, cnt as int);
    let mut names: Vec<String> = Vec::new();
    let mut pos = start;
    let mut k: i32 = 0;
    proof {
        assert(names@.map_values(|s: String| s@) =~= Seq::<Seq<char>>::empty());
    }
    while k < cnt
        invariant
            0 <= k,
            cnt > 0 ==> k <= cnt,
            start <= pos <= data@.len(),
            goal == with_found(
                names@.map_values(|s: String| s@),
                d1_names(data@, pos as int, cnt - k),
            ),
        decreases cnt - k,
    {
        let ghost pre = d1_names(data@, pos as int, (cnt - k) as int);
        let l = match read_u8(data, pos) {
            Some(l) => l,
            None => {
                return Err(DatError::ReadError);
            },
        };
        if data.len() - (pos + 1) < l as usize {
            proof {
                assert(pre == Err::<(int, Seq<Seq<char>>), DatError>(DatError::ReadError));
            }
            return Err(DatError::ReadError);
        }
        let bytes = match read_slice(data, pos + 1, l as usize) {
            Some(b) => b,
            None => {
                return Err(DatError::ReadError);
            },
        };
        let name = match string_from_utf8(bytes) {
            Some(s) => s,
            None => {
                return Err(DatError::ReadError);
            },
        };
        let ghost ns0 = names@.map_values(|s: String| s@);
        names.push(name);
        pos = pos + 1 + l as usize;
        k = k + 1;
        proof {
            let post = d1_names(data@, pos as int, (cnt - k) as int);
            assert(pre == with_found(seq![names@.last()@], post));
            lemma_with_found_assoc(ns0, seq![names@.last()@], post);
            assert(names@.map_values(|s: String| s@) =~= ns0 + seq![names@.last()@]);
        }
    }
    Ok((pos, names))
}

/// Reads the file records of one directory of a legacy header,
/// appending its rows.
#[verifier::loop_isolation(false)]
fn parse_d1_files(
    data: &Vec<u8>,
    start: usize,
    dir: &String,
    cnt: i32,
    rows: &mut Vec<(String, FileEntry)>,
) -> (r: Result<usize, DatError>)
    requires
        start <= data@.len(),
    ensures
        r matches Ok(p2) ==> start <= p2 <= data@.len(),
        (match d1_files(data@, start as int, dir@, cnt as int) {
            Ok((p, found)) => r matches Ok(p2) && p2 == p && row_views(final(rows)@) == row_views(
                old(rows)@,
            ) + found,
            Err(e) => r == Err::<usize, DatError>(e),
        }),
{
    let ghost goal = d1_files(data@, start as int, dir@, cnt as int);
    let ghost rows0 = row_views(rows@);
    let mut pos = start;
    let mut k: i32 = 0;
    let dir_is_dot = is_dot(dir);
    proof {
        assert(row_views(rows@) =~= rows0 + Seq::<SpecRow>::empty());
    }
    while k < cnt
        invariant
            0 <= k,
            cnt > 0 ==> k <= cnt,
            pos <= data@.len(),
            (match d1_files(data@, pos as int, dir@, cnt - k) {
                Ok((p, found)) => goal == Ok::<(int, Seq<SpecRow>), DatError>((
                    p,
                    row_views(rows@).skip(rows0.len() as int) + found,
                )),
                Err(e) => goal == Err::<(int, Seq<SpecRow>), DatError>(e),
            }),
            row_views(rows@).len() >= rows0.len(),
            row_views(rows@).take(rows0.len() as int) == rows0,
            start <= pos,
        decreases cnt - k,
    {
        let ghost pre = d1_files(data@, pos as int, dir@, (cnt - k) as int);
        let l = match read_u8(data, pos) {
            Some(l) => l,
            None => {
                return Err(DatError::ReadError);
            },
        };
        if data.len() - (pos + 1) < l as usize || data.len() - (pos + 1 + l as usize) < 16 {
            proof {
                assert(pre == Err::<(int, Seq<SpecRow>), DatError>(DatError::ReadError));
            }
            return Err(DatError::ReadError);
        }
        let bytes = match read_slice(data, pos + 1, l as usize) {
            Some(b) => b,
            None => {
                return Err(DatError::ReadError);
            },
        };
        let name = match string_from_utf8(bytes) {
            Some(s) => s,
            None => {
                return Err(DatError::ReadError);
            },
        };
        let base = pos + 1 + l as usize;
        let attributes = read_be_i32(data, base).unwrap();
        let offset = read_be_i32(data, base + 4).unwrap();
        let size = read_be_i32(data, base + 8).unwrap();
        let size_compressed = read_be_i32(data, base + 12).unwrap();
        let state = if size_compressed == 0 || (attributes & 0x20) != 0 {
            FileState::Uncompressed
        } else {
            FileState::Compressed { size: size_compressed as usize }
        };
        let entry = FileEntry { offset: offset as usize, size: size as usize, state };
        let path = if dir_is_dot {
            name
        } else {
            let mut p = dir.clone();
            crate::paths::push_char(&mut p, '\\');
            p.append(name.as_str());
            proof {
                assert(p@ =~= dir@ + seq!['\\'] + name@);
            }
            p
        };
        let ghost rv_pre = row_views(rows@);
        rows.push((path, entry));
        pos = base + 16;
        k = k + 1;
        proof {
            let post = d1_files(data@, pos as int, dir@, (cnt - k) as int);
            let rowv = (rows@.last().0@, rows@.last().1);
            assert(pre == with_found(seq![rowv], post));
            assert(row_views(rows@) =~= rv_pre.push(rowv));
            assert(row_views(rows@).take(rows0.len() as int) =~= rv_pre.take(rows0.len() as int));
            match post {
                Ok((p, found)) => {
                    assert(rv_pre.skip(rows0.len() as int) + (seq![rowv] + found) =~= row_views(
                        rows@,
                    ).skip(rows0.len() as int) + found);
                },
                Err(_) => {},
            }
        }
    }
    proof {
        assert(rows0 + row_views(rows@).skip(rows0.len() as int) =~= row_views(rows@));
    }
    Ok(pos)
}

/// Parses a whole legacy archive into its rows, in header order.
#[verifier::rlimit(50)]
#[verifier::loop_isolation(false)]
fn parse_rows_dat1(data: &Vec<u8>, dir_count: i32) -> (r: Result<Vec<(String, FileEntry)>, DatError>)
    requires
        dir_count as int == be_i32_at(data@, 0) || data@.len() < 16,
    ensures
        (match parse_dat1(data@) {
            Ok(found) => r matches Ok(v) && row_views(v@) == found,
            Err(e) => r == Err::<Vec<(String, FileEntry)>, DatError>(e),
        }),
{
    if data.len() < 16 {
        return Err(DatError::ReadError);
    }
    let (p0, names) = match parse_d1_names(data, 16, dir_count) {
        Ok(x) => x,
        Err(e) => {
            return Err(e);
        },
    };
    let ghost nviews = names@.map_values(|s: String| s@);
    let ghost goal = d1_dirs(data@, p0 as int, nviews, 0);
    let mut rows: Vec<(String, FileEntry)> = Vec::new();
    let mut pos = p0;
    let mut i: usize = 0;
    proof {
        assert(row_views(rows@) =~= Seq::<SpecRow>::empty());
        assert(goal == with_found(row_views(rows@), d1_dirs(data@, pos as int, nviews, 0)));
    }
    while i < names.len()
        invariant
            i <= names@.len(),
            pos <= data@.len(),
            goal == with_found(row_views(rows@), d1_dirs(data@, pos as int, nviews, i as int)),
        decreases names@.len() - i,
    {
        let ghost pre = d1_dirs(data@, pos as int, nviews, i as int);
        if data.len() - pos < 16 {
            proof {
                assert(pre == Err::<(int, Seq<SpecRow>), DatError>(DatError::ReadError));
            }
            return Err(DatError::ReadError);
        }
        let fc = read_be_i32(data, pos).unwrap();
        let ghost rows_pre = row_views(rows@);
        let res = parse_d1_files(data, pos + 16, &names[i], fc, &mut rows);
        match res {
            Ok(p1) => {
                proof {
                    let fres = d1_files(data@, pos + 16, nviews[i as int], fc as int);
                    let found = fres->Ok_0.1;
                    let post = d1_dirs(data@, p1 as int, nviews, i + 1);
                    assert(pre == with_found(found, post));
                    lemma_with_found_assoc(rows_pre, found, post);
                }
                pos = p1;
            },
            Err(e) => {
                return Err(e);
            },
        }
        i = i + 1;
    }
    proof {
        assert(d1_dirs(data@, pos as int, nviews, names@.len() as int) == Ok::<
            (int, Seq<SpecRow>),
            DatError,
        >((pos as int, Seq::empty())));
        assert(row_views(rows@) + Seq::<SpecRow>::empty() =~= row_views(rows@));
    }
    Ok(rows)
}


/// Prepends rows to the payload of a row walk.
pub open spec fn with_items<T>(prefix: Seq<T>, r: Result<Seq<T>, DatError>) -> Result<
    Seq<T>,
    DatError,
> {
    match r {
        Ok(rest) => Ok(prefix + rest),
        Err(e) => Err(e),
    }
}

proof fn lemma_with_items_assoc<T>(a: Seq<T>, b: Seq<T>, r: Result<Seq<T>, DatError>)
    ensures
        with_items(a, with_items(b, r)) == with_items(a + b, r),
{
    match r {
        Ok(rest) => {
            assert(a + (b + rest) =~= (a + b) + rest);
        },
        Err(_) => {},
    }
}

/// Parses the tree table of a format-2 archive into its rows.
#[verifier::loop_isolation(false)]
fn parse_rows_dat2(data: &Vec<u8>) -> (r: Result<Vec<(String, FileEntry)>, DatError>)
    ensures
        (match parse_dat2(data@) {
            Ok(found) => r matches Ok(v) && row_views(v@) == found,
            Err(e) => r == Err::<Vec<(String, FileEntry)>, DatError>(e),
        }),
{
    if data.len() < 8 {
        return Err(DatError::ReadError);
    }
    let tree_size = read_le_u32(data, data.len() - 8).unwrap() as usize;
    let data_size = read_le_u32(data, data.len() - 4).unwrap() as usize;
    if data_size < 8 || data_size - 8 < tree_size {
        return Err(DatError::ReadError);
    }
    let start = data_size - tree_size - 4;
    if start > data.len() || data.len() - start < tree_size {
        return Err(DatError::ReadError);
    }
    proof {
        assert(start as int == d2_tree_start(data@));
    }
    let file_count = read_le_u32(data, start - 4).unwrap();
    let buf = read_slice(data, start, tree_size).unwrap();
    let ghost goal = d2_records(buf@, 0, file_count as int);
    let mut rows: Vec<(String, FileEntry)> = Vec::new();
    let mut pos: usize = 0;
    let mut k: u32 = 0;
    let mut done = false;
    proof {
        assert(row_views(rows@) =~= Seq::<SpecRow>::empty());
    }
    while !done && k < file_count
        invariant
            k <= file_count,
            pos <= buf@.len(),
            goal == with_items(row_views(rows@), d2_records(buf@, pos as int, file_count - k)),
            done ==> d2_records(buf@, pos as int, file_count - k) == Ok::<Seq<SpecRow>, DatError>(
                Seq::empty(),
            ),
        decreases file_count - k, (if done { 0int } else { 1int }),
    {
        let ghost pre = d2_records(buf@, pos as int, (file_count - k) as int);
        if buf.len() < 4 || pos > buf.len() - 4 {
            proof {
                assert(pre == Ok::<Seq<SpecRow>, DatError>(Seq::empty()));
            }
            done = true;
            continue;
        }
        let nl = read_le_u32(&buf, pos).unwrap() as usize;
        if buf.len() - (pos + 4) < nl || buf.len() - (pos + 4 + nl) < 13 {
            proof {
                assert(pre == Ok::<Seq<SpecRow>, DatError>(Seq::empty()));
            }
            done = true;
            continue;
        }
        let bytes = read_slice(&buf, pos + 4, nl).unwrap();
        let name = match string_from_utf8(bytes) {
            Some(s) => s,
            None => {
                return Err(DatError::ReadError);
            },
        };
        let base = pos + 4 + nl;
        let t = read_u8(&buf, base).unwrap();
        let real_size = read_le_u32(&buf, base + 1).unwrap();
        let packed_size = read_le_u32(&buf, base + 5).unwrap();
        let offset = read_le_u32(&buf, base + 9).unwrap();
        let state = if t == 0 {
            FileState::Uncompressed
        } else {
            FileState::Compressed { size: packed_size as usize }
        };
        let entry = FileEntry { offset: offset as usize, size: real_size as usize, state };
        let ghost rows_pre = row_views(rows@);
        rows.push((name, entry));
        pos = base + 13;
        k = k + 1;
        proof {
            let post = d2_records(buf@, pos as int, (file_count - k) as int);
            let rowv = (rows@.last().0@, rows@.last().1);
            assert(pre == with_items(seq![rowv], post));
            lemma_with_items_assoc(rows_pre, seq![rowv], post);
            assert(row_views(rows@) =~= rows_pre + seq![rowv]);
        }
    }
    proof {
        assert(row_views(rows@) + Seq::<SpecRow>::empty() =~= row_views(rows@));
    }
    Ok(rows)
}

/// The result of the one-time open: the detected layout and the shape of
/// the finished index.
pub open spec fn spec_open(data: Seq<u8>) -> Result<(Version, NodeV), DatError> {
    if data.len() < 12 {
        Err(DatError::ReadError)
    } else {
        let v = spec_version(data);
        let rows = if v is Dat1 {
            parse_dat1(data)
        } else {
            parse_dat2(data)
        };
        match rows {
            Ok(rs) => match archive_tree(rs) {
                Ok(t) => Ok((v, t)),
                Err(e) => Err(e),
            },
            Err(e) => Err(e),
        }
    }
}

/// The raw byte length an entry occupies in the archive.
pub open spec fn raw_len(entry: FileEntry) -> int {
    match entry.state {
        FileState::Uncompressed => entry.size as int,
        FileState::Compressed { size } => size as int,
    }
}

/// What an LZSS entry must unpack to: the declared stream decodes
/// cleanly and to exactly the declared size, or the entry is corrupt.
pub open spec fn lzss_unpack(input: Seq<u8>, size: int) -> Result<Seq<u8>, DatError> {
    match crate::lzss::lzss_decode(input) {
        Ok(o) => if o.len() == size {
            Ok(o)
        } else {
            Err(DatError::LZSSError)
        },
        Err(e) => Err(e),
    }
}

/// What one INFLATE pass over `input` into a `size`-byte buffer yields:
/// the filled buffer (a stream that ends early leaves its zeroed tail),
/// or nothing when the stream is rejected. A function of the input and
/// size alone.
pub uninterp spec fn zlib_inflate(input: Seq<u8>, size: nat) -> Option<Seq<u8>>;

/// Relies on flate2's `bufread::ZlibDecoder`: one `read` into a buffer
/// of exactly `size` bytes INFLATEs the stream in `input`, failing
/// exactly on the streams the decoder rejects.
#[verifier::external_body]
fn inflate_into(input: &Vec<u8>, size: usize) -> (r: Option<Vec<u8>>)
    ensures
        r is Some <==> zlib_inflate(input@, size as nat) is Some,
        r matches Some(v) ==> Some(v@) == zlib_inflate(input@, size as nat) && v@.len() == size,
{
    let mut out = vec![0u8; size];
    let mut dec = flate2::bufread::ZlibDecoder::new(input.as_slice());
    match std::io::Read::read(&mut dec, &mut out) {
        Ok(_) => Some(out),
        Err(_) => None,
    }
}

/// An opened archive: its bytes, the detected layout, and the path
/// index of its entries.
pub struct DatFile {
    data: Vec<u8>,
    version: Version,
    pub registry: FileTree,
}

impl DatFile {
    /// The archive bytes behind this handle.
    pub closed spec fn spec_data(&self) -> Seq<u8> {
        self.data@
    }

    /// The shape of the path index.
    pub closed spec fn spec_registry(&self) -> NodeV {
        self.registry@
    }

    /// The detected layout.
    pub closed spec fn spec_version(&self) -> Version {
        self.version
    }

    /// The archive is small enough for block arithmetic to stay inside
    /// machine bounds.
    pub open spec fn wf(&self) -> bool {
        self.spec_data().len() + 0x10000 <= usize::MAX
    }

    /// The detected layout of this archive.
    pub fn get_version(&self) -> (r: &Version)
        ensures
            *r == self.spec_version(),
    {
        &self.version
    }

    /// Opens an archive held in memory: classifies the layout from the
    /// first twelve bytes, parses the matching directory structure, and
    /// builds the sorted path index. No archive is returned on any
    /// parse failure.
    pub fn open(data: Vec<u8>) -> (r: Result<DatFile, DatError>)
        requires
            data@.len() + 0x10000 <= usize::MAX,
        ensures
            (match spec_open(data@) {
                Ok((v, t)) => r matches Ok(d) && d.spec_version() == v && d.spec_registry() == t
                    && d.spec_data() == data@ && d.wf(),
                Err(e) => r == Err::<DatFile, DatError>(e),
            }),
    {
        if data.len() < 12 {
            return Err(DatError::ReadError);
        }
        let dir_count = read_be_i32(&data, 0).unwrap();
        let id = read_be_i32(&data, 4).unwrap();
        let zero = read_be_i32(&data, 8).unwrap();
        let version = if dir_count > 0 && (id == 0x0A || id == 0x5E) && zero == 0 {
            Version::Dat1
        } else {
            Version::Dat2
        };
        let rows = match version {
            Version::Dat1 => parse_rows_dat1(&data, dir_count),
            _ => parse_rows_dat2(&data),
        };
        let rows = match rows {
            Ok(rs) => rs,
            Err(e) => {
                return Err(e);
            },
        };
        let ghost rv = row_views(rows@);
        let mut tree = FileTree::new();
        let mut i: usize = 0;
        #[verifier::loop_isolation(false)]
        while i < rows.len()
            invariant
                i <= rows@.len(),
                build_tree(rv, 0, empty_root()) == build_tree(rv, i as int, tree@),
            decreases rows@.len() - i,
        {
            let res = tree.insert_unsorted(rows[i].0.as_str(), rows[i].1);
            match res {
                Ok(()) => {},
                Err(e) => {
                    return Err(e);
                },
            }
            i = i + 1;
        }
        match tree.sort() {
            Ok(()) => {},
            Err(e) => {
                return Err(e);
            },
        }
        Ok(DatFile { data, version, registry: tree })
    }

    /// The raw, possibly still compressed, bytes of an entry.
    pub fn get_entry_data(&self, entry: &FileEntry) -> (r: Result<Vec<u8>, DatError>)
        ensures
            entry.offset + raw_len(*entry) <= self.spec_data().len() ==> (r matches Ok(v) && v@
                == self.spec_data().subrange(
                entry.offset as int,
                entry.offset + raw_len(*entry),
            )),
            entry.offset + raw_len(*entry) > self.spec_data().len() ==> r == Err::<
                Vec<u8>,
                DatError,
            >(DatError::ReadError),
    {
        let len = match entry.state {
            FileState::Uncompressed => entry.size,
            FileState::Compressed { size } => size,
        };
        match read_slice(&self.data, entry.offset, len) {
            Some(v) => Ok(v),
            None => Err(DatError::ReadError),
        }
    }

    /// Decompresses one entry: raw entries are copied out, legacy
    /// compressed entries run through the LZSS decoder, format-2
    /// compressed entries through INFLATE.
    pub fn unpack_file(&self, entry: &FileEntry) -> (r: Result<Vec<u8>, DatError>)
        requires
            self.wf(),
        ensures
            self.spec_version() is Unknown ==> r == Err::<Vec<u8>, DatError>(DatError::InvalidSig),
            !(self.spec_version() is Unknown) && entry.offset + raw_len(*entry)
                > self.spec_data().len() ==> r == Err::<Vec<u8>, DatError>(DatError::ReadError),
            !(self.spec_version() is Unknown) && entry.offset + raw_len(*entry)
                <= self.spec_data().len() ==> {
                let input = self.spec_data().subrange(
                    entry.offset as int,
                    entry.offset + raw_len(*entry),
                );
                &&& entry.state is Uncompressed ==> (r matches Ok(v) && v@ == input)
                &&& (self.spec_version() is Dat1 && entry.state is Compressed) ==> (
                match lzss_unpack(input, entry.size as int) {
                    Ok(o) => r matches Ok(v) && v@ == o,
                    Err(e) => r == Err::<Vec<u8>, DatError>(e),
                })
                &&& (self.spec_version() is Dat2 && entry.state is Compressed) ==> ((r is Ok
                    <==> zlib_inflate(input, entry.size as nat) is Some) && (r matches Ok(v)
                    ==> Some(v@) == zlib_inflate(input, entry.size as nat) && v@.len()
                    == entry.size) && (r matches Err(e) ==> e == DatError::LZSSError))
            },
    {
        match &self.version {
            Version::Unknown => {
                return Err(DatError::InvalidSig);
            },
            _ => {},
        }
        let input = match self.get_entry_data(entry) {
            Ok(v) => v,
            Err(e) => {
                return Err(e);
            },
        };
        match (&self.version, &entry.state) {
            (Version::Unknown, _) => Err(DatError::InvalidSig),
            (_, FileState::Uncompressed) => Ok(input),
            (Version::Dat1, FileState::Compressed { .. }) => {
                crate::lzss::decompress_lzss(&input, entry.size)
            },
            (Version::Dat2, FileState::Compressed { .. }) => {
                match inflate_into(&input, entry.size) {
                    Some(v) => Ok(v),
                    None => Err(DatError::LZSSError),
                }
            },
        }
    }

    /// Decodes a raw LZSS stream into a buffer of the given declared
    /// size; a stream that decodes to any other length is corrupt.
    pub fn decompress_lzss_inner(input: Vec<u8>, output_size: usize) -> (r: Result<
        Vec<u8>,
        DatError,
    >)
        requires
            input@.len() + 0x10000 <= usize::MAX,
        ensures
            (match lzss_unpack(input@, output_size as int) {
                Ok(o) => r matches Ok(v) && v@ == o,
                Err(e) => r == Err::<Vec<u8>, DatError>(e),
            }),
    {
        crate::lzss::decompress_lzss(&input, output_size)
    }
}


/// A format-2 parse of a truncated tree table ends without error and
/// yields at most `file_count` rows: the record walk stops at the
/// buffer's edge, so a short table only shortens the row list.
pub proof fn lemma_dat2_row_count(data: Seq<u8>)
    ensures
        parse_dat2(data) matches Ok(rows) ==> data.len() >= 8 && rows.len() <= le_u32_at(
            data,
            d2_tree_start(data) - 4,
        ),
{
    if data.len() >= 8 {
        let tree_size = le_u32_at(data, data.len() - 8) as int;
        let start = d2_tree_start(data);
        if start >= 4 && start + tree_size <= data.len() {
            let file_count = le_u32_at(data, start - 4) as int;
            lemma_d2_records_count(data.subrange(start, start + tree_size), 0, file_count);
        }
    }
}


/// Every row of the fold names a path not yet in the tree, and every
/// insertion goes through. This is the validity a legacy archive owes:
/// no two records name the same file, and no file stands where another
/// record needs a directory.
pub open spec fn all_creates(rows: Seq<SpecRow>, i: int, v: NodeV) -> bool
    decreases rows.len() - i,
{
    if i >= rows.len() {
        true
    } else {
        match tree_insert(v, rows[i].0, rows[i].1, false) {
            Ok(v2) => crate::tree::insert_creates(v, path_parts(rows[i].0), 0) && all_creates(
                rows,
                i + 1,
                v2,
            ),
            Err(_) => false,
        }
    }
}

/// Folding rows that all create adds one file node per row.
proof fn lemma_build_tree_count(rows: Seq<SpecRow>, i: int, v: NodeV)
    requires
        0 <= i <= rows.len(),
        all_creates(rows, i, v),
    ensures
        build_tree(rows, i, v) matches Ok(t) && build_tree(rows, i, v)->Ok_0.file_count()
            == v.file_count() + (rows.len() - i),
    decreases rows.len() - i,
{
    if i < rows.len() {
        crate::tree::lemma_file_count_insert(
            v,
            path_parts(rows[i].0),
            0,
            seq!['.'],
            rows[i].1,
            false,
        );
        match tree_insert(v, rows[i].0, rows[i].1, false) {
            Ok(v2) => {
                lemma_build_tree_count(rows, i + 1, v2);
            },
            Err(_) => {},
        }
    }
}

/// For any valid legacy archive — one whose records all name distinct
/// new paths — the number of file nodes in the finished index equals
/// the sum of the directory headers' `file_count` words.
pub proof fn lemma_dat1_file_nodes(data: Seq<u8>)
    requires
        parse_dat1(data) matches Ok(rows) && all_creates(rows, 0, empty_root()),
    ensures
        ({
            let rows = parse_dat1(data)->Ok_0;
            &&& archive_tree(rows) matches Ok(t) && t.file_count() == rows.len()
            &&& (match d1_names(data, 16, be_i32_at(data, 0) as int) {
                Ok((p, names)) => rows.len() == d1_file_count_sum(data, p, names, 0),
                Err(_) => false,
            })
        }),
{
    let rows = parse_dat1(data)->Ok_0;
    lemma_build_tree_count(rows, 0, empty_root());
    assert(crate::tree::file_count_seq(Seq::<crate::tree::NodeV>::empty()) == 0);
    match build_tree(rows, 0, empty_root()) {
        Ok(t) => {
            crate::tree::lemma_file_count_sort_rec(t);
        },
        Err(_) => {},
    }
    match d1_names(data, 16, be_i32_at(data, 0) as int) {
        Ok((p, names)) => {
            lemma_d1_dirs_count(data, p, names, 0);
        },
        Err(_) => {},
    }
}


/// Folding rows into a well-formed tree keeps it well formed.
proof fn lemma_build_tree_wf(rows: Seq<SpecRow>, i: int, v: NodeV)
    requires
        0 <= i,
    ensures
        build_tree(rows, i, v) matches Ok(t) ==> (v.wf() ==> t.wf()),
    decreases rows.len() - i,
{
    if i < rows.len() {
        crate::tree::lemma_insert_wf(v, path_parts(rows[i].0), 0, seq!['.'], rows[i].1, false);
        match tree_insert(v, rows[i].0, rows[i].1, false) {
            Ok(v2) => {
                lemma_build_tree_wf(rows, i + 1, v2);
            },
            Err(_) => {},
        }
    }
}

/// The index an open builds is well formed — child names stay unique in
/// every directory — and sorted, so binary-search lookup is valid on it.
pub proof fn lemma_archive_tree_wf(rows: Seq<SpecRow>)
    ensures
        archive_tree(rows) matches Ok(t) ==> t.wf() && t.sorted(),
{
    assert(empty_root().wf()) by {
        crate::tree::lemma_seq_wf(Seq::<NodeV>::empty());
    }
    lemma_build_tree_wf(rows, 0, empty_root());
    match build_tree(rows, 0, empty_root()) {
        Ok(t) => {
            crate::tree::lemma_sort_rec_wf(t);
            crate::tree::lemma_sort_rec_sorted(t);
        },
        Err(_) => {},
    }
}

} // verus!
