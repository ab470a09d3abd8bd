//! The `zsh-z` datafile: one `path|rank|time` entry per line.

use vstd::prelude::*;
use vstd::string::to_string_from_display_ensures;
use crate::text::{
    decimal, lemma_decimal_digits_all, lemma_decimal_parses, lemma_float_text_has_no_pipe,
    all_white_space, chars_of, is_blank, is_float_chars, is_float_text, parse_u64_chars,
    parse_u64_spec, string_from_chars,
};

verus! {

/// One entry of the datafile, its fields as the line writes them.
///
/// `rank` is the rank's decimal text; reading it as a number is left to the
/// caller, which works in floating point.
#[derive(Debug, Clone, PartialEq)]
pub struct Entry {
    pub path: String,
    pub rank: String,
    pub time: u64,
}

impl View for Entry {
    type V = (Seq<char>, Seq<char>, u64);

    open spec fn view(&self) -> (Seq<char>, Seq<char>, u64) {
        (self.path@, self.rank@, self.time)
    }
}

/// The views of a sequence of entries.
pub open spec fn entries_view(v: Seq<Entry>) -> Seq<(Seq<char>, Seq<char>, u64)> {
    v.map_values(|e: Entry| e@)
}

/// The index of the last `|` in `s`, or -1 when there is none.
pub open spec fn last_pipe(s: Seq<char>) -> int
    decreases s.len(),
{
    if s.len() == 0 {
        -1
    } else if s.last() == '|' {
        s.len() - 1
    } else {
        last_pipe(s.drop_last())
    }
}

/// What a datafile line says: `path|rank|time`, split at the last two `|`
/// so that the path may hold `|` itself. No entry when a `|` is missing,
/// when the path is empty, when the rank is not a number (`f64`) or when the
/// time is not a `u64`.
pub open spec fn parse_line_spec(line: Seq<char>) -> Option<(Seq<char>, Seq<char>, u64)> {
    let t = last_pipe(line);
    if t < 0 {
        None
    } else {
        let rest = line.take(t);
        let r = last_pipe(rest);
        if r < 0 {
            None
        } else {
            let path = rest.take(r);
            let rank = rest.subrange(r + 1, t);
            if path.len() == 0 || !is_float_text(rank) {
                None
            } else {
                match parse_u64_spec(line.skip(t + 1)) {
                    Some(time) => Some((path, rank, time)),
                    None => None,
                }
            }
        }
    }
}

/// The position of the last `|` in `cs[from..to]`.
fn find_last_pipe(cs: &Vec<char>, from: usize, to: usize) -> (r: Option<usize>)
    requires
        from <= to <= cs@.len(),
    ensures
        match r {
            Some(k) => from <= k < to && last_pipe(cs@.subrange(from as int, to as int)) == k
                - from,
            None => last_pipe(cs@.subrange(from as int, to as int)) < 0,
        },
{
    let mut i = to;
    while i > from
        invariant
            from <= i <= to <= cs@.len(),
            last_pipe(cs@.subrange(from as int, to as int)) == last_pipe(
                cs@.subrange(from as int, i as int),
            ),
        decreases i - from,
    {
        assert(cs@.subrange(from as int, i as int).drop_last() =~= cs@.subrange(
            from as int,
            i - 1,
        ));
        if cs[i - 1] == '|' {
            return Some(i - 1);
        }
        i -= 1;
    }
    None
}

/// Reads the line `cs[from..to]`.
fn parse_line_chars(cs: &Vec<char>, from: usize, to: usize) -> (r: Option<Entry>)
    requires
        from <= to <= cs@.len(),
    ensures
        match r {
            Some(e) => parse_line_spec(cs@.subrange(from as int, to as int)) == Some(e@),
            None => parse_line_spec(cs@.subrange(from as int, to as int)) is None,
        },
{
    let ghost line = cs@.subrange(from as int, to as int);
    let t = match find_last_pipe(cs, from, to) {
        Some(t) => t,
        None => return None,
    };
    assert(line.take(t - from) =~= cs@.subrange(from as int, t as int));
    let r = match find_last_pipe(cs, from, t) {
        Some(r) => r,
        None => return None,
    };
    let ghost rest = line.take(t - from);
    assert(rest.take(r - from) =~= cs@.subrange(from as int, r as int));
    assert(rest.subrange(r - from + 1, t - from) =~= cs@.subrange(r + 1, t as int));
    assert(line.skip(t - from + 1) =~= cs@.subrange(t + 1, to as int));
    if r == from || !is_float_chars(cs, r + 1, t) {
        return None;
    }
    match parse_u64_chars(cs, t + 1, to) {
        Some(time) => {
            let path = string_from_chars(cs, from, r);
            let rank = string_from_chars(cs, r + 1, t);
            Some(Entry { path, rank, time })
        },
        None => None,
    }
}

/// Reads one line of the datafile, `path|rank|time`.
///
/// The line is split at its last two `|`, so the path may itself hold `|`.
/// There is no entry when a `|` is missing, when the path is empty, when the
/// rank does not read as an `f64` or when the time is not a `u64`. The rank
/// is kept as its text.
pub fn parse_line(line: &str) -> (r: Option<Entry>)
    ensures
        match r {
            Some(e) => parse_line_spec(line@) == Some(e@),
            None => parse_line_spec(line@) is None,
        },
{
    let cs = chars_of(line);
    assert(cs@.subrange(0, cs@.len() as int) =~= line@);
    parse_line_chars(&cs, 0, cs.len())
}


/// The index of the first newline in `s`, or -1 when there is none.
pub open spec fn first_newline(s: Seq<char>) -> int
    decreases s.len(),
{
    if s.len() == 0 {
        -1
    } else if s[0] == '\n' {
        0
    } else {
        let k = first_newline(s.drop_first());
        if k < 0 {
            -1
        } else {
            k + 1
        }
    }
}

/// A first newline, where there is one, lies within the text.
pub proof fn lemma_first_newline_bound(s: Seq<char>)
    ensures
        -1 <= first_newline(s) < s.len(),
    decreases s.len(),
{
    if s.len() > 0 && s[0] != '\n' {
        lemma_first_newline_bound(s.drop_first());
    }
}

proof fn lemma_first_newline_at(s: Seq<char>, k: int)
    requires
        0 <= k < s.len(),
        s[k] == '\n',
        forall|j: int| 0 <= j < k ==> s[j] != '\n',
    ensures
        first_newline(s) == k,
    decreases k,
{
    if k > 0 {
        lemma_first_newline_at(s.drop_first(), k - 1);
    }
}

proof fn lemma_no_newline(s: Seq<char>)
    requires
        forall|j: int| 0 <= j < s.len() ==> s[j] != '\n',
    ensures
        first_newline(s) == -1,
    decreases s.len(),
{
    if s.len() > 0 {
        lemma_no_newline(s.drop_first());
    }
}

/// `l` without one trailing carriage return.
pub open spec fn strip_cr(l: Seq<char>) -> Seq<char> {
    if l.len() > 0 && l.last() == '\r' {
        l.drop_last()
    } else {
        l
    }
}

/// The lines of `s` as `str::lines` documents them: split at `\n` or
/// `\r\n`, the terminators dropped, the final line ending optional.
pub open spec fn lines_of(s: Seq<char>) -> Seq<Seq<char>>
    decreases s.len(),
{
    if s.len() == 0 {
        seq![]
    } else {
        let k = first_newline(s);
        proof {
            lemma_first_newline_bound(s);
        }
        if k < 0 {
            seq![s]
        } else {
            seq![strip_cr(s.take(k))] + lines_of(s.skip(k + 1))
        }
    }
}

/// The entries of the datafile text `s`: one for each line that reads as
/// an entry, in the file's order; the other lines are skipped.
pub open spec fn entries_of(s: Seq<char>) -> Seq<(Seq<char>, Seq<char>, u64)> {
    lines_of(s).filter_map(|l: Seq<char>| parse_line_spec(l))
}

/// The reasons the datafile gives no entries.
#[derive(Debug)]
pub enum LoadError {
    /// The home directory is unknown, so the datafile cannot be located.
    MissingHome,
    /// The datafile does not exist.
    FileNotFound,
    /// The datafile holds white space only.
    Empty,
    /// The datafile could not be read.
    Io(std::io::Error),
}

impl LoadError {
    /// The text that reports the error to the user.
    pub fn message(&self) -> (m: String)
        ensures
            match self {
                LoadError::MissingHome => m@ == "could not resolve $HOME"@,
                LoadError::FileNotFound => m@ == "no zsh-z data found"@,
                LoadError::Empty => m@ == "no zsh-z data found"@,
                LoadError::Io(e) => exists|t: String|
                    to_string_from_display_ensures::<std::io::Error>(e, t) && m@
                        == "failed to read zsh-z data: "@ + t@,
            },
    {
        match self {
            LoadError::MissingHome => String::from_str("could not resolve $HOME"),
            LoadError::FileNotFound => String::from_str("no zsh-z data found"),
            LoadError::Empty => String::from_str("no zsh-z data found"),
            LoadError::Io(e) => {
                let t = e.to_string();
                let mut m = String::from_str("failed to read zsh-z data: ");
                m.append(t.as_str());
                m
            },
        }
    }

    /// The status the program exits with on this error: 1 when there is no
    /// data to rank, 2 when something went wrong.
    pub fn exit_code(&self) -> (code: u8)
        ensures
            code == match self {
                LoadError::FileNotFound | LoadError::Empty => 1u8,
                LoadError::MissingHome | LoadError::Io(_) => 2u8,
            },
    {
        match self {
            LoadError::FileNotFound | LoadError::Empty => 1,
            LoadError::MissingHome | LoadError::Io(_) => 2,
        }
    }
}

/// `std::io::Error`, carried through opaque.
#[verifier::external_type_specification]
#[verifier::external_body]
pub struct ExIoError(std::io::Error);

/// Reads the text of a datafile.
///
/// A text of white space only is `Empty`; otherwise each line that reads as
/// an entry gives one, in order, and the other lines are skipped.
pub fn load_from_str(contents: &str) -> (r: Result<Vec<Entry>, LoadError>)
    ensures
        all_white_space(contents@) ==> r matches Err(LoadError::Empty),
        !all_white_space(contents@) ==> (r matches Ok(v) && entries_view(v@) == entries_of(
            contents@,
        )),
{
    let cs = chars_of(contents);
    let len = cs.len();
    assert(cs@.subrange(0, len as int) =~= cs@);
    if is_blank(&cs, 0, len) {
        return Err(LoadError::Empty);
    }
    let ghost f = |l: Seq<char>| parse_line_spec(l);
    let mut out: Vec<Entry> = Vec::new();
    let ghost mut lines: Seq<Seq<char>> = seq![];
    let mut start: usize = 0;
    let mut i: usize = 0;
    assert(cs@.skip(0) =~= cs@);
    while i < len
        invariant
            len == cs@.len(),
            cs@ == contents@,
            start <= i <= len,
            lines_of(cs@) == lines + lines_of(cs@.skip(start as int)),
            forall|j: int| start <= j < i ==> cs@[j] != '\n',
            entries_view(out@) == lines.filter_map(f),
            f == (|l: Seq<char>| parse_line_spec(l)),
        decreases len - i,
    {
        if cs[i] == '\n' {
            let ghost rest = cs@.skip(start as int);
            proof {
                lemma_first_newline_at(rest, i - start);
                assert(rest.take(i - start) =~= cs@.subrange(start as int, i as int));
                assert(rest.skip(i - start + 1) =~= cs@.skip(i + 1));
            }
            let end = if i > start && cs[i - 1] == '\r' {
                i - 1
            } else {
                i
            };
            let ghost line = cs@.subrange(start as int, end as int);
            assert(line =~= strip_cr(cs@.subrange(start as int, i as int)));
            let ghost old_out = out@;
            match parse_line_chars(&cs, start, end) {
                Some(e) => {
                    out.push(e);
                },
                None => {},
            }
            proof {
                assert(lines.push(line).drop_last() =~= lines);
                assert(lines + lines_of(rest) =~= lines.push(line) + lines_of(cs@.skip(i + 1)));
                assert(entries_view(out@) =~= lines.push(line).filter_map(f));
                lines = lines.push(line);
            }
            start = i + 1;
        }
        i += 1;
    }
    if start < len {
        let ghost rest = cs@.skip(start as int);
        proof {
            lemma_no_newline(rest);
            assert(rest =~= cs@.subrange(start as int, len as int));
        }
        match parse_line_chars(&cs, start, len) {
            Some(e) => {
                out.push(e);
            },
            None => {},
        }
        proof {
            assert(lines.push(rest).drop_last() =~= lines);
            assert(lines + lines_of(rest) =~= lines.push(rest));
            assert(entries_view(out@) =~= lines.push(rest).filter_map(f));
        }
    } else {
        assert(lines_of(cs@.skip(start as int)) =~= seq![]);
        assert(lines + seq![] =~= lines);
    }
    Ok(out)
}


/// Why reading the datafile from disk failed.
#[derive(Debug)]
pub enum ReadFailure {
    /// There is no file at that path.
    NotFound,
    /// Any other read error.
    Other(std::io::Error),
}

/// Reads the datafile from the outcome of reading it from disk: a file
/// that does not exist is `FileNotFound`, any other read error is `Io`,
/// and a text read is taken as `load_from_str` takes it.
pub fn load_from(read: Result<String, ReadFailure>) -> (r: Result<Vec<Entry>, LoadError>)
    ensures
        match read {
            Ok(contents) => if all_white_space(contents@) {
                r matches Err(LoadError::Empty)
            } else {
                r matches Ok(v) && entries_view(v@) == entries_of(contents@)
            },
            Err(ReadFailure::NotFound) => r matches Err(LoadError::FileNotFound),
            Err(ReadFailure::Other(e)) => r == Err::<Vec<Entry>, LoadError>(LoadError::Io(e)),
        },
{
    match read {
        Ok(contents) => load_from_str(contents.as_str()),
        Err(ReadFailure::NotFound) => Err(LoadError::FileNotFound),
        Err(ReadFailure::Other(e)) => Err(LoadError::Io(e)),
    }
}

/// `home` joined with the file name `.z`, as `Path::join` joins a relative
/// name on Unix: a `/` goes between them unless `home` is empty or already
/// ends with one. Paths are their bytes, as the OS holds them.
pub open spec fn join_dot_z(home: Seq<u8>) -> Seq<u8> {
    if home.len() == 0 || home.last() == 0x2F {
        home + seq![0x2Eu8, 0x7Au8]
    } else {
        home + seq![0x2Fu8, 0x2Eu8, 0x7Au8]
    }
}

/// The datafile `.z` in the directory `home` (a path as bytes).
pub fn dot_z_in(home: Vec<u8>) -> (p: Vec<u8>)
    ensures
        p@ == join_dot_z(home@),
{
    let mut p = home;
    if p.len() > 0 && p[p.len() - 1] != 0x2F {
        p.push(0x2F);
    }
    p.push(0x2E);
    p.push(0x7A);
    assert(p@ =~= join_dot_z(home@));
    p
}

/// The datafile in a directory keeps the directory's path whole, adds at
/// most a separator, and ends with `.z`: it is never the bare relative `.z`
/// when the directory is given.
pub proof fn lemma_dot_z_keeps_home(home: Seq<u8>)
    ensures
        join_dot_z(home).take(home.len() as int) == home,
        join_dot_z(home).len() == home.len() + 2 || join_dot_z(home).len() == home.len() + 3,
        join_dot_z(home).skip(join_dot_z(home).len() - 2) == seq![0x2Eu8, 0x7Au8],
        home.len() > 0 ==> join_dot_z(home) != seq![0x2Eu8, 0x7Au8],
{
    let p = join_dot_z(home);
    assert(p.take(home.len() as int) =~= home);
    assert(p.skip(p.len() - 2) =~= seq![0x2Eu8, 0x7Au8]);
}

/// Trusted: `dirs::home_dir`, the home directory of the current user (on
/// Unix `$HOME` when it is set and not empty, else the password database
/// entry when its home field is not empty), as the bytes of its `OsString`
/// (`into_encoded_bytes`, which keeps them as they are). It depends on the
/// environment, so it gets no name; what is stated is what the Unix source
/// (dirs-sys `home_dir`) shows of every outcome: a directory given is never
/// empty.
#[verifier::external_body]
fn home_dir() -> (r: Option<Vec<u8>>)
    ensures
        match r {
            Some(h) => h@.len() > 0,
            None => true,
        },
{
    match dirs::home_dir() {
        Some(p) => Some(p.into_os_string().into_encoded_bytes()),
        None => None,
    }
}

/// The datafile in the home directory `home`: `home/.z`, or `MissingHome`
/// when the home directory is unknown.
pub fn datafile_in_home(home: Option<Vec<u8>>) -> (r: Result<Vec<u8>, LoadError>)
    ensures
        match home {
            Some(h) => r matches Ok(p) && p@ == join_dot_z(h@),
            None => r matches Err(LoadError::MissingHome),
        },
{
    match home {
        Some(h) => Ok(dot_z_in(h)),
        None => Err(LoadError::MissingHome),
    }
}

/// The path that `$_Z_DATA` gives, when it is set and not empty.
pub open spec fn custom_path(custom: Option<Vec<u8>>) -> Option<Seq<u8>> {
    match custom {
        Some(c) => if c@.len() > 0 {
            Some(c@)
        } else {
            None
        },
        None => None,
    }
}

/// Where the datafile is, as bytes: `custom` (the value of `$_Z_DATA`) when
/// it is given and not empty, else `.z` in the home directory.
pub fn resolve_datafile_path(custom: Option<Vec<u8>>) -> (r: Result<Vec<u8>, LoadError>)
    ensures
        match custom_path(custom) {
            Some(c) => r matches Ok(p) && p@ == c,
            None => match r {
                Ok(p) => exists|h: Seq<u8>| h.len() > 0 && p@ == join_dot_z(h),
                Err(e) => e is MissingHome,
            },
        },
{
    if let Some(c) = custom {
        if c.len() > 0 {
            return Ok(c);
        }
    }
    datafile_in_home(home_dir())
}

proof fn lemma_last_pipe_of_joined(a: Seq<char>, b: Seq<char>)
    requires
        forall|i: int| 0 <= i < b.len() ==> b[i] != '|',
    ensures
        last_pipe(a + seq!['|'] + b) == a.len(),
    decreases b.len(),
{
    let s = a + seq!['|'] + b;
    if b.len() == 0 {
        assert(s.last() == '|');
    } else {
        assert(s.drop_last() =~= a + seq!['|'] + b.drop_last());
        lemma_last_pipe_of_joined(a, b.drop_last());
    }
}

/// A line written as `path|rank|time`, the rank a number and the time in
/// decimal, reads back as that entry, whatever `|` the path holds.
pub proof fn lemma_parse_written_line(path: Seq<char>, rank: Seq<char>, time: u64)
    requires
        path.len() > 0,
        is_float_text(rank),
    ensures
        parse_line_spec(path + seq!['|'] + rank + seq!['|'] + decimal(time as nat)) == Some(
            (path, rank, time),
        ),
{
    let t = decimal(time as nat);
    let line = path + seq!['|'] + rank + seq!['|'] + t;
    lemma_float_text_has_no_pipe(rank);
    lemma_decimal_parses(time);
    lemma_decimal_digits_all(time as nat);
    assert forall|i: int| 0 <= i < t.len() implies t[i] != '|' by {
        assert(crate::text::is_digit(t[i]));
    }
    lemma_last_pipe_of_joined(path + seq!['|'] + rank, t);
    let k = (path.len() + rank.len() + 1) as int;
    assert(line.take(k) =~= path + seq!['|'] + rank);
    lemma_last_pipe_of_joined(path, rank);
    assert(line.skip(k + 1) =~= t);
    assert(line.take(k).take(path.len() as int) =~= path);
    assert(line.take(k).subrange(path.len() + 1int, k) =~= rank);
}

/// Ending the last line with a newline changes no entry: a datafile reads
/// the same with or without its final line ending (a last line that ends in
/// a carriage return set apart, as `str::lines` keeps that one).
pub proof fn lemma_final_newline_optional(s: Seq<char>)
    requires
        s.len() > 0,
        s.last() != '\n',
        s.last() != '\r',
    ensures
        lines_of(s.push('\n')) == lines_of(s),
        entries_of(s.push('\n')) == entries_of(s),
    decreases s.len(),
{
    let s2 = s.push('\n');
    let k = first_newline(s);
    lemma_first_newline_bound(s);
    if k < 0 {
        assert forall|j: int| 0 <= j < s.len() implies s2[j] != '\n' by {
            if s[j] == '\n' {
                lemma_first_newline_at_least(s, j);
            }
        }
        lemma_first_newline_at(s2, s.len() as int);
        assert(s2.take(s.len() as int) =~= s);
        assert(s2.skip(s.len() + 1int) =~= Seq::<char>::empty());
        assert(lines_of(Seq::<char>::empty()) =~= seq![]);
        assert(strip_cr(s) == s);
        assert(lines_of(s2) =~= seq![s]);
    } else {
        lemma_first_newline_props(s);
        lemma_first_newline_at(s2, k);
        assert(s2.take(k) =~= s.take(k));
        let rest = s.skip(k + 1);
        assert(rest.len() > 0);
        assert(s2.skip(k + 1) =~= rest.push('\n'));
        assert(rest.last() == s.last());
        lemma_final_newline_optional(rest);
    }
}

proof fn lemma_first_newline_props(s: Seq<char>)
    requires
        first_newline(s) >= 0,
    ensures
        s[first_newline(s)] == '\n',
        forall|j: int| 0 <= j < first_newline(s) ==> s[j] != '\n',
    decreases s.len(),
{
    lemma_first_newline_bound(s);
    if s[0] != '\n' {
        lemma_first_newline_props(s.drop_first());
        assert forall|j: int| 0 <= j < first_newline(s) implies s[j] != '\n' by {
            if j > 0 {
                assert(s[j] == s.drop_first()[j - 1]);
            }
        }
    }
}

proof fn lemma_first_newline_at_least(s: Seq<char>, j: int)
    requires
        0 <= j < s.len(),
        s[j] == '\n',
    ensures
        first_newline(s) >= 0,
    decreases j,
{
    if j > 0 && s[0] != '\n' {
        lemma_first_newline_at_least(s.drop_first(), j - 1);
    }
}


/// Text that is empty or ends with a newline splits into lines
/// independently of what follows it.
pub proof fn lemma_lines_append(a: Seq<char>, b: Seq<char>)
    requires
        a.len() == 0 || a.last() == '\n',
    ensures
        lines_of(a + b) == lines_of(a) + lines_of(b),
    decreases a.len(),
{
    if a.len() == 0 {
        assert(a + b =~= b);
        assert(lines_of(a) + lines_of(b) =~= lines_of(b));
    } else {
        lemma_first_newline_at_least(a, a.len() - 1);
        lemma_first_newline_props(a);
        lemma_first_newline_bound(a);
        let k = first_newline(a);
        let ab = a + b;
        assert forall|j: int| 0 <= j < k implies ab[j] != '\n' by {
            assert(ab[j] == a[j]);
        }
        assert(ab[k] == a[k]);
        lemma_first_newline_at(ab, k);
        assert(ab.take(k) =~= a.take(k));
        let a2 = a.skip(k + 1);
        assert(ab.skip(k + 1) =~= a2 + b);
        if a2.len() > 0 {
            assert(a2.last() == a.last());
        }
        lemma_lines_append(a2, b);
        assert(lines_of(ab) =~= lines_of(a) + lines_of(b));
    }
}

/// A line without a newline, ended by one, is that one line (a carriage
/// return before the newline dropped).
pub proof fn lemma_single_line(l: Seq<char>)
    requires
        forall|i: int| 0 <= i < l.len() ==> l[i] != '\n',
    ensures
        lines_of(l + seq!['\n']) == seq![strip_cr(l)],
{
    let s = l + seq!['\n'];
    assert forall|j: int| 0 <= j < l.len() implies s[j] != '\n' by {
        assert(s[j] == l[j]);
    }
    lemma_first_newline_at(s, l.len() as int);
    assert(s.take(l.len() as int) =~= l);
    assert(s.skip(l.len() + 1int) =~= Seq::<char>::empty());
    assert(lines_of(Seq::<char>::empty()) =~= seq![]);
    assert(lines_of(s) =~= seq![strip_cr(l)]);
}

/// Appending one line to a datafile adds that line's entry at the end when
/// the line reads as an entry, and nothing otherwise: every line that reads
/// contributes, in order, with no limit on how many.
pub proof fn lemma_each_line_adds_its_entry(s: Seq<char>, l: Seq<char>)
    requires
        s.len() == 0 || s.last() == '\n',
        forall|i: int| 0 <= i < l.len() ==> l[i] != '\n',
    ensures
        entries_of(s + l + seq!['\n']) == match parse_line_spec(strip_cr(l)) {
            Some(e) => entries_of(s).push(e),
            None => entries_of(s),
        },
        !(l.len() > 0 && l.last() == '\r') ==> strip_cr(l) == l,
{
    assert(s + l + seq!['\n'] =~= s + (l + seq!['\n']));
    lemma_lines_append(s, l + seq!['\n']);
    lemma_single_line(l);
    let ls = lines_of(s);
    let all = ls + seq![strip_cr(l)];
    assert(all =~= ls.push(strip_cr(l)));
    assert(ls.push(strip_cr(l)).drop_last() =~= ls);
    assert(ls.push(strip_cr(l)).last() == strip_cr(l));
}

} // verus!
