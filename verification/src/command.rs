//! Reading an edited listing: each line names a file by its inode and either
//! asks for the file to be deleted (nothing after the inode) or gives the
//! mode, owner, group, modification time and name it should have.

use vstd::prelude::*;
use vstd::string::StrSliceExecFns;
use vstd::string::StringExecFns;
use crate::datetime::{datetime_parse, datetime_value, parse_datetime_total};
use crate::text::{
    all_digits, boundary_index, byte_len, byte_len_at_least, chars_of, find_boundary, has_boundary,
    hex_end, hex_end_exec, is_ascii_digit, is_ws, lemma_skip_ws_bounds, lemma_word_end_bounds,
    parse_octal, parse_octal_exec, string_of, subvec, trim, trim_start, trim_start_vec, trim_vec,
    word_end, word_end_exec,
};

verus! {

/// What a line asks for the file with its inode.
pub enum Command {
    Delete,
    Update {
        mode: u32,
        user: String,
        group: String,
        datetime: String,
        mtime: u64,
        filename: String,
    },
}

/// A command with its strings taken as character sequences.
pub enum CommandModel {
    Delete,
    Update {
        mode: u32,
        user: Seq<char>,
        group: Seq<char>,
        datetime: Seq<char>,
        mtime: u64,
        filename: Seq<char>,
    },
}

impl View for Command {
    type V = CommandModel;

    open spec fn view(&self) -> CommandModel {
        match self {
            Command::Delete => CommandModel::Delete,
            Command::Update { mode, user, group, datetime, mtime, filename } => CommandModel::Update {
                mode: *mode,
                user: user@,
                group: group@,
                datetime: datetime@,
                mtime: *mtime,
                filename: filename@,
            },
        }
    }
}

/// What reading one line comes to.
pub enum LineParse {
    /// Slicing the line at a fixed byte offset would panic.
    Panic,
    /// The line is blank, a comment, or not a well-formed command.
    Skip,
    /// The line holds a command for the file with this inode.
    Entry(Seq<char>, CommandModel),
}

/// `split_first_word`: the first whitespace-separated word, and what follows
/// it with leading whitespace removed.
pub open spec fn split_word(s: Seq<char>) -> Option<(Seq<char>, Seq<char>)> {
    let t = trim_start(s);
    let end = word_end(t, 0);
    if end == 0 {
        None
    } else {
        Some((t.subrange(0, end), trim_start(t.subrange(end, t.len() as int))))
    }
}

/// The fields after the mode, owner and group: the first 25 bytes are the
/// modification time, and the rest, trimmed, is the file name.
pub open spec fn update_parse(
    inode: Seq<char>,
    mode_str: Seq<char>,
    user: Seq<char>,
    group: Seq<char>,
    rest: Seq<char>,
) -> LineParse {
    if byte_len(rest) < 25 {
        LineParse::Skip
    } else if !has_boundary(rest, 25) {
        LineParse::Panic
    } else {
        let i = boundary_index(rest, 25);
        let datetime = rest.subrange(0, i);
        let filename = trim(rest.subrange(i, rest.len() as int));
        if filename.len() == 0 {
            LineParse::Skip
        } else if !all_digits(mode_str) {
            LineParse::Skip
        } else {
            match parse_octal(mode_str) {
                None => LineParse::Skip,
                Some(mode) => if datetime_parse(datetime) is Panic {
                    LineParse::Panic
                } else {
                    match datetime_value(datetime) {
                        None => LineParse::Skip,
                        Some(mtime) => LineParse::Entry(
                            inode,
                            CommandModel::Update { mode, user, group, datetime, mtime, filename },
                        ),
                    }
                },
            }
        }
    }
}

/// Reading one line of an edited listing.
pub open spec fn line_parse(line: Seq<char>) -> LineParse {
    let t = trim(line);
    if t.len() == 0 || t[0] == '#' {
        LineParse::Skip
    } else {
        let k = hex_end(t, 0);
        if k == 0 {
            LineParse::Skip
        } else {
            let inode = t.subrange(0, k);
            let rest = trim(t.subrange(k, t.len() as int));
            if rest.len() == 0 {
                LineParse::Entry(inode, CommandModel::Delete)
            } else {
                match split_word(rest) {
                    None => LineParse::Skip,
                    Some((mode_str, r1)) => match split_word(r1) {
                        None => LineParse::Skip,
                        Some((user, r2)) => match split_word(r2) {
                            None => LineParse::Skip,
                            Some((group, r3)) => update_parse(inode, mode_str, user, group, r3),
                        },
                    },
                }
            }
        }
    }
}

/// `split_word` on a character vector.
fn split_word_vec(v: &Vec<char>) -> (r: Option<(Vec<char>, Vec<char>)>)
    ensures
        match split_word(v@) {
            None => r is None,
            Some((w, rest)) => r matches Some((a, b)) && a@ == w && b@ == rest,
        },
{
    let t = trim_start_vec(v);
    let end = word_end_exec(&t);
    if end == 0 {
        return None;
    }
    let word = subvec(&t, 0, end);
    let after = subvec(&t, end, t.len());
    let rest = trim_start_vec(&after);
    Some((word, rest))
}

/// Whether every character is an ASCII digit.
fn all_digits_exec(v: &Vec<char>) -> (r: bool)
    ensures
        r == all_digits(v@),
{
    let mut i: usize = 0;
    while i < v.len()
        invariant
            i <= v.len(),
            forall|j: int| 0 <= j < i ==> crate::text::is_digit(#[trigger] v@[j]),
        decreases v.len() - i,
    {
        if !is_ascii_digit(v[i]) {
            return false;
        }
        i = i + 1;
    }
    true
}

/// `update_parse`; `Err` where it would panic.
fn update_parse_exec(inode: &Vec<char>, mode_str: &Vec<char>, user: &Vec<char>, group: &Vec<char>, rest: &Vec<char>) -> (r: Result<Option<(String, Command)>, ()>)
    ensures
        match update_parse(inode@, mode_str@, user@, group@, rest@) {
            LineParse::Panic => r is Err,
            LineParse::Skip => r matches Ok(None),
            LineParse::Entry(k, c) => r matches Ok(Some((key, cmd))) && key@ == k && cmd@ == c,
        },
{
    if !byte_len_at_least(rest, 25) {
        return Ok(None);
    }
    let i = match find_boundary(rest, 25) {
        Some(i) => i,
        None => return Err(()),
    };
    proof {
        crate::text::lemma_boundary_unique(rest@, 25, i as int);
    }
    let datetime = subvec(rest, 0, i);
    let tail = subvec(rest, i, rest.len());
    let filename = trim_vec(&tail);
    if filename.len() == 0 {
        return Ok(None);
    }
    if !all_digits_exec(mode_str) {
        return Ok(None);
    }
    let mode = match parse_octal_exec(mode_str) {
        Some(m) => m,
        None => return Ok(None),
    };
    let mtime = match parse_datetime_total(&datetime) {
        Err(()) => return Err(()),
        Ok(None) => return Ok(None),
        Ok(Some(t)) => t,
    };
    let key = string_of(inode, 0, inode.len());
    let cmd = Command::Update {
        mode,
        user: string_of(user, 0, user.len()),
        group: string_of(group, 0, group.len()),
        datetime: string_of(&datetime, 0, datetime.len()),
        mtime,
        filename: string_of(&filename, 0, filename.len()),
    };
    proof {
        assert(inode@.subrange(0, inode@.len() as int) =~= inode@);
        assert(user@.subrange(0, user@.len() as int) =~= user@);
        assert(group@.subrange(0, group@.len() as int) =~= group@);
        assert(datetime@.subrange(0, datetime@.len() as int) =~= datetime@);
        assert(filename@.subrange(0, filename@.len() as int) =~= filename@);
    }
    Ok(Some((key, cmd)))
}

/// `line_parse` on a character vector; `Err` where reading would panic.
pub fn parse_line_total(v: &Vec<char>) -> (r: Result<Option<(String, Command)>, ()>)
    ensures
        match line_parse(v@) {
            LineParse::Panic => r is Err,
            LineParse::Skip => r matches Ok(None),
            LineParse::Entry(k, c) => r matches Ok(Some((key, cmd))) && key@ == k && cmd@ == c,
        },
{
    let t = trim_vec(v);
    if t.len() == 0 || t[0] == '#' {
        return Ok(None);
    }
    let k = hex_end_exec(&t);
    if k == 0 {
        return Ok(None);
    }
    let inode = subvec(&t, 0, k);
    let after = subvec(&t, k, t.len());
    let rest = trim_vec(&after);
    if rest.len() == 0 {
        let key = string_of(&inode, 0, inode.len());
        proof {
            assert(inode@.subrange(0, inode@.len() as int) =~= inode@);
        }
        return Ok(Some((key, Command::Delete)));
    }
    let (mode_str, r1) = match split_word_vec(&rest) {
        Some(p) => p,
        None => return Ok(None),
    };
    let (user, r2) = match split_word_vec(&r1) {
        Some(p) => p,
        None => return Ok(None),
    };
    let (group, r3) = match split_word_vec(&r2) {
        Some(p) => p,
        None => return Ok(None),
    };
    update_parse_exec(&inode, &mode_str, &user, &group, &r3)
}

/// Reads one line of an edited listing: `None` for blank lines, comments and
/// lines that are not well formed; otherwise the inode and the command.
/// The modification time is taken as the 25 bytes after the group, so the
/// line must not place a field's byte offset inside a multi-byte character.
pub fn parse_line(line: &str) -> (r: Option<(String, Command)>)
    requires
        !(line_parse(line@) is Panic),
    ensures
        match line_parse(line@) {
            LineParse::Entry(k, c) => r matches Some((key, cmd)) && key@ == k && cmd@ == c,
            _ => r is None,
        },
{
    let v = chars_of(line);
    match parse_line_total(&v) {
        Ok(x) => x,
        Err(()) => None,
    }
}

/// Whether reading `line` stays clear of slicing inside a character, that is,
/// whether `parse_line` may be called on it.
pub fn line_slices_cleanly(line: &str) -> (r: bool)
    ensures
        r == !(line_parse(line@) is Panic),
{
    let v = chars_of(line);
    parse_line_total(&v).is_ok()
}

/// Splits off the first whitespace-separated word; `None` when `s` holds only
/// whitespace.
pub fn split_first_word(s: &str) -> (r: Option<(&str, &str)>)
    ensures
        match split_word(s@) {
            None => r is None,
            Some((w, rest)) => r matches Some((a, b)) && a@ == w && b@ == rest,
        },
{
    let v = chars_of(s);
    let start = crate::text::skip_ws_exec(&v);
    let t = subvec(&v, start, v.len());
    let end = word_end_exec(&t);
    if end == 0 {
        return None;
    }
    let after = subvec(&t, end, t.len());
    let skip = crate::text::skip_ws_exec(&after);
    proof {
        lemma_skip_ws_bounds(v@, 0);
        lemma_word_end_bounds(t@, 0);
        lemma_skip_ws_bounds(after@, 0);
        assert(t@.subrange(0, end as int) =~= v@.subrange(start as int, start + end));
        assert(trim_start(after@) =~= v@.subrange(start + end + skip, v@.len() as int));
    }
    let word = s.substring_char(start, start + end);
    let rest = s.substring_char(start + end + skip, v.len());
    Some((word, rest))
}


// ---------------------------------------------------------------------------
// Commands keyed by inode
// ---------------------------------------------------------------------------

/// No inode occurs twice.
pub open spec fn keys_distinct(es: Seq<(Seq<char>, CommandModel)>) -> bool {
    forall|i: int, j: int| 0 <= i < j < es.len() ==> es[i].0 != es[j].0
}

/// Position of inode `k`, or `-1`.
pub open spec fn key_index(es: Seq<(Seq<char>, CommandModel)>, k: Seq<char>) -> int {
    if exists|i: int| 0 <= i < es.len() && es[i].0 == k {
        choose|i: int| 0 <= i < es.len() && es[i].0 == k
    } else {
        -1
    }
}

/// Storing a command for inode `k`: it replaces an earlier one in place, or
/// comes last.
pub open spec fn insert_entry(es: Seq<(Seq<char>, CommandModel)>, k: Seq<char>, c: CommandModel) -> Seq<
    (Seq<char>, CommandModel),
> {
    let i = key_index(es, k);
    if i >= 0 {
        es.update(i, (k, c))
    } else {
        es.push((k, c))
    }
}

/// The commands as a map from inode to command.
pub open spec fn as_map(es: Seq<(Seq<char>, CommandModel)>) -> Map<Seq<char>, CommandModel> {
    Map::new(|k: Seq<char>| key_index(es, k) >= 0, |k: Seq<char>| es[key_index(es, k)].1)
}

pub proof fn lemma_key_index(es: Seq<(Seq<char>, CommandModel)>, k: Seq<char>, i: int)
    requires
        keys_distinct(es),
        0 <= i < es.len(),
        es[i].0 == k,
    ensures
        key_index(es, k) == i,
{
}

pub proof fn lemma_key_absent(es: Seq<(Seq<char>, CommandModel)>, k: Seq<char>)
    requires
        forall|i: int| 0 <= i < es.len() ==> es[i].0 != k,
    ensures
        key_index(es, k) == -1,
{
}

/// Storing keeps inodes distinct.
pub proof fn lemma_insert_distinct(es: Seq<(Seq<char>, CommandModel)>, k: Seq<char>, c: CommandModel)
    requires
        keys_distinct(es),
    ensures
        keys_distinct(insert_entry(es, k, c)),
{
    let i = key_index(es, k);
    if i >= 0 {
        assert(es[i].0 == k);
    } else {
        let r = es.push((k, c));
        assert forall|a: int, b: int| 0 <= a < b < r.len() implies r[a].0 != r[b].0 by {
            if b == es.len() {
                assert(es[a].0 != k);
            }
        }
    }
}

/// Storing a command behaves as `Map::insert`: a later command for the same
/// inode replaces the earlier one.
pub proof fn lemma_insert_as_map(es: Seq<(Seq<char>, CommandModel)>, k: Seq<char>, c: CommandModel)
    requires
        keys_distinct(es),
    ensures
        as_map(insert_entry(es, k, c)) == as_map(es).insert(k, c),
{
    lemma_insert_distinct(es, k, c);
    let r = insert_entry(es, k, c);
    let i = key_index(es, k);
    assert forall|q: Seq<char>| #[trigger] as_map(r).contains_key(q) <==> as_map(es).insert(k, c).contains_key(q) by {
        if q == k {
            if i >= 0 {
                lemma_key_index(r, k, i);
            } else {
                lemma_key_index(r, k, es.len() as int);
            }
        } else if key_index(es, q) >= 0 {
            let j = key_index(es, q);
            lemma_key_index(r, q, j);
        } else {
            assert forall|j: int| 0 <= j < r.len() implies r[j].0 != q by {
                if j < es.len() && !(i >= 0 && j == i) {
                    assert(es[j].0 != q);
                }
            }
        }
    }
    assert forall|q: Seq<char>| as_map(r).contains_key(q) implies #[trigger] as_map(r)[q] == as_map(es).insert(k, c)[q] by {
        if q == k {
            if i >= 0 {
                lemma_key_index(r, k, i);
            } else {
                lemma_key_index(r, k, es.len() as int);
            }
        } else {
            let j = key_index(es, q);
            lemma_key_index(r, q, j);
        }
    }
    assert(as_map(r) =~= as_map(es).insert(k, c));
}

/// Commands read from a listing, one per inode, in the order in which each
/// inode first appeared.
pub struct CommandMap {
    entries: Vec<(String, Command)>,
}

impl View for CommandMap {
    type V = Seq<(Seq<char>, CommandModel)>;

    closed spec fn view(&self) -> Seq<(Seq<char>, CommandModel)> {
        self.entries@.map_values(|e: (String, Command)| (e.0@, e.1@))
    }
}

impl CommandMap {
    #[verifier::type_invariant]
    spec fn distinct(self) -> bool {
        keys_distinct(self@)
    }

    pub fn new() -> (m: CommandMap)
        ensures
            m@ == Seq::<(Seq<char>, CommandModel)>::empty(),
            keys_distinct(m@),
    {
        let m = CommandMap { entries: Vec::new() };
        assert(m@ =~= Seq::<(Seq<char>, CommandModel)>::empty());
        m
    }

    pub fn len(&self) -> (n: usize)
        ensures
            n == self@.len(),
            keys_distinct(self@),
    {
        proof {
            use_type_invariant(self);
        }
        self.entries.len()
    }

    pub fn is_empty(&self) -> (b: bool)
        ensures
            b == (self@.len() == 0),
    {
        self.entries.len() == 0
    }

    /// The commands in order, with their inodes.
    pub fn entries(&self) -> (r: &Vec<(String, Command)>)
        ensures
            r@.len() == self@.len(),
            forall|i: int|
                0 <= i < r@.len() ==> (#[trigger] r@[i]).0@ == self@[i].0 && r@[i].1@ == self@[i].1,
    {
        &self.entries
    }

    /// Position of `key`, if present.
    fn position(&self, key: &String) -> (r: Option<usize>)
        ensures
            match r {
                Some(i) => key_index(self@, key@) == i && i < self@.len(),
                None => key_index(self@, key@) == -1,
            },
    {
        proof {
            use_type_invariant(self);
        }
        let mut i: usize = 0;
        while i < self.entries.len()
            invariant
                i <= self.entries@.len(),
                self@.len() == self.entries@.len(),
                forall|j: int| 0 <= j < self.entries@.len() ==> (#[trigger] self@[j]).0 == self.entries@[j].0@,
                forall|j: int| 0 <= j < i ==> self@[j].0 != key@,
                keys_distinct(self@),
            decreases self.entries.len() - i,
        {
            if self.entries[i].0 == *key {
                proof {
                    lemma_key_index(self@, key@, i as int);
                }
                return Some(i);
            }
            i = i + 1;
        }
        proof {
            lemma_key_absent(self@, key@);
        }
        None
    }

    pub fn contains_key(&self, key: &str) -> (b: bool)
        ensures
            b == as_map(self@).contains_key(key@),
    {
        let k = String::from_str(key);
        self.position(&k).is_some()
    }

    pub fn get(&self, key: &str) -> (r: Option<&Command>)
        ensures
            match r {
                Some(c) => as_map(self@).contains_key(key@) && c@ == as_map(self@)[key@],
                None => !as_map(self@).contains_key(key@),
            },
    {
        let k = String::from_str(key);
        match self.position(&k) {
            Some(i) => Some(&self.entries[i].1),
            None => None,
        }
    }

    /// Stores `cmd` for `key`, replacing an earlier command for the same inode.
    pub fn insert(&mut self, key: String, cmd: Command)
        ensures
            final(self)@ == insert_entry(old(self)@, key@, cmd@),
            as_map(final(self)@) == as_map(old(self)@).insert(key@, cmd@),
            keys_distinct(final(self)@),
    {
        proof {
            use_type_invariant(&*self);
            lemma_insert_as_map(self@, key@, cmd@);
            lemma_insert_distinct(self@, key@, cmd@);
        }
        let ghost old_view = self@;
        let ghost k = key@;
        let ghost c = cmd@;
        match self.position(&key) {
            Some(i) => {
                let mut entries: Vec<(String, Command)> = Vec::new();
                std::mem::swap(&mut entries, &mut self.entries);
                entries.set(i, (key, cmd));
                proof {
                    assert(entries@.map_values(|e: (String, Command)| (e.0@, e.1@)) =~= insert_entry(old_view, k, c));
                }
                self.entries = entries;
            },
            None => {
                let mut entries: Vec<(String, Command)> = Vec::new();
                std::mem::swap(&mut entries, &mut self.entries);
                entries.push((key, cmd));
                proof {
                    assert(entries@.map_values(|e: (String, Command)| (e.0@, e.1@)) =~= insert_entry(old_view, k, c));
                }
                self.entries = entries;
            },
        }
    }
}


/// The entries whose flag in `keep` is set, in order.
pub open spec fn kept<E>(es: Seq<E>, keep: Seq<bool>) -> Seq<E>
    decreases es.len(),
{
    if es.len() == 0 {
        Seq::empty()
    } else {
        let rest = kept(es.drop_first(), keep.drop_first());
        if keep.len() > 0 && keep[0] {
            seq![es[0]] + rest
        } else {
            rest
        }
    }
}

proof fn lemma_kept_distinct(es: Seq<(Seq<char>, CommandModel)>, keep: Seq<bool>)
    requires
        keys_distinct(es),
    ensures
        keys_distinct(kept(es, keep)),
        forall|j: int| 0 <= j < kept(es, keep).len() ==> exists|i: int| 0 <= i < es.len() && es[i] == #[trigger] kept(es, keep)[j],
    decreases es.len(),
{
    if es.len() > 0 {
        let rest = kept(es.drop_first(), keep.drop_first());
        lemma_kept_distinct(es.drop_first(), keep.drop_first());
        if keep.len() > 0 && keep[0] {
            let r = seq![es[0]] + rest;
            assert forall|j: int| 0 <= j < r.len() implies exists|i: int| 0 <= i < es.len() && es[i] == #[trigger] r[j] by {
                if j == 0 {
                    assert(es[0] == r[0]);
                } else {
                    assert(r[j] == rest[j - 1]);
                    let i = choose|i: int| 0 <= i < es.drop_first().len() && es.drop_first()[i] == rest[j - 1];
                    assert(es[i + 1] == r[j]);
                }
            }
            assert forall|a: int, b: int| 0 <= a < b < r.len() implies r[a].0 != r[b].0 by {
                if a == 0 {
                    assert(r[b] == rest[b - 1]);
                    let i = choose|i: int| 0 <= i < es.drop_first().len() && es.drop_first()[i] == rest[b - 1];
                    assert(es[i + 1] == r[b]);
                } else {
                    assert(r[a] == rest[a - 1] && r[b] == rest[b - 1]);
                }
            }
        } else {
            assert forall|j: int| 0 <= j < rest.len() implies exists|i: int| 0 <= i < es.len() && es[i] == #[trigger] rest[j] by {
                let i = choose|i: int| 0 <= i < es.drop_first().len() && es.drop_first()[i] == rest[j];
                assert(es[i + 1] == rest[j]);
            }
        }
    }
}

impl CommandMap {
    /// Keeps the entries whose flag in `keep` is set, in order.
    pub fn retain(&mut self, keep: &Vec<bool>)
        requires
            keep@.len() == old(self)@.len(),
        ensures
            final(self)@ == kept(old(self)@, keep@),
            keys_distinct(final(self)@),
    {
        proof {
            use_type_invariant(&*self);
            lemma_kept_distinct(self@, keep@);
        }
        let ghost old_view = self@;
        let mut entries: Vec<(String, Command)> = Vec::new();
        std::mem::swap(&mut entries, &mut self.entries);
        let n = entries.len();
        let mut i = n;
        while i > 0
            invariant
                i <= n,
                n == old_view.len(),
                keep@.len() == n,
                entries@.len() >= i,
                entries@.map_values(|e: (String, Command)| (e.0@, e.1@)) == old_view.subrange(0, i as int) + kept(
                    old_view.subrange(i as int, n as int),
                    keep@.subrange(i as int, n as int),
                ),
            decreases i,
        {
            let ghost before = entries@.map_values(|e: (String, Command)| (e.0@, e.1@));
            proof {
                let es = old_view.subrange(i - 1, n as int);
                let ks = keep@.subrange(i - 1, n as int);
                assert(es.drop_first() =~= old_view.subrange(i as int, n as int));
                assert(ks.drop_first() =~= keep@.subrange(i as int, n as int));
                assert(es[0] == old_view[i - 1]);
                assert(ks[0] == keep@[i - 1]);
            }
            if !keep[i - 1] {
                let ghost ev = entries@;
                entries.remove(i - 1);
                proof {
                    assert(entries@ == ev.remove(i - 1));
                    assert(entries@.map_values(|e: (String, Command)| (e.0@, e.1@)) =~= before.remove(i - 1));
                    assert(kept(old_view.subrange(i - 1, n as int), keep@.subrange(i - 1, n as int)) == kept(
                        old_view.subrange(i as int, n as int),
                        keep@.subrange(i as int, n as int),
                    ));
                    assert(entries@.map_values(|e: (String, Command)| (e.0@, e.1@)) =~= old_view.subrange(0, i - 1) + kept(
                        old_view.subrange(i - 1, n as int),
                        keep@.subrange(i - 1, n as int),
                    ));
                }
            } else {
                proof {
                    assert(before =~= old_view.subrange(0, i - 1) + kept(
                        old_view.subrange(i - 1, n as int),
                        keep@.subrange(i - 1, n as int),
                    ));
                }
            }
            i = i - 1;
        }
        proof {
            assert(old_view.subrange(0, n as int) =~= old_view);
            assert(keep@.subrange(0, n as int) =~= keep@);
            assert(entries@.map_values(|e: (String, Command)| (e.0@, e.1@)) =~= kept(old_view, keep@));
        }
        self.entries = entries;
    }
}

/// The lines of a listing as character sequences.
pub open spec fn lines_view(lines: Seq<String>) -> Seq<Seq<char>> {
    lines.map_values(|l: String| l@)
}

/// The commands that a sequence of lines holds: each line that reads as a
/// command stores it for its inode, replacing a command from an earlier line.
pub open spec fn commands_of(lines: Seq<Seq<char>>) -> Seq<(Seq<char>, CommandModel)>
    decreases lines.len(),
{
    if lines.len() == 0 {
        Seq::empty()
    } else {
        let prev = commands_of(lines.drop_last());
        match line_parse(lines.last()) {
            LineParse::Entry(k, c) => insert_entry(prev, k, c),
            _ => prev,
        }
    }
}

/// No line of `lines` makes reading panic.
pub open spec fn lines_slice_cleanly(lines: Seq<Seq<char>>) -> bool {
    forall|i: int| 0 <= i < lines.len() ==> !(#[trigger] line_parse(lines[i]) is Panic)
}

/// Reads every line of an edited listing into commands keyed by inode.
pub fn parse_commands(lines: &[String]) -> (m: CommandMap)
    requires
        lines_slice_cleanly(lines_view(lines@)),
    ensures
        m@ == commands_of(lines_view(lines@)),
        keys_distinct(m@),
{
    let mut commands = CommandMap::new();
    let mut i: usize = 0;
    while i < lines.len()
        invariant
            i <= lines@.len(),
            lines_slice_cleanly(lines_view(lines@)),
            commands@ == commands_of(lines_view(lines@).subrange(0, i as int)),
            keys_distinct(commands@),
        decreases lines.len() - i,
    {
        let ghost prefix = lines_view(lines@).subrange(0, i + 1);
        proof {
            assert(prefix.drop_last() =~= lines_view(lines@).subrange(0, i as int));
            assert(prefix.last() == lines@[i as int]@);
            assert(!(line_parse(lines_view(lines@)[i as int]) is Panic));
        }
        match parse_line(lines[i].as_str()) {
            Some((inode, cmd)) => {
                commands.insert(inode, cmd);
            },
            None => {},
        }
        i = i + 1;
    }
    proof {
        assert(lines_view(lines@).subrange(0, lines@.len() as int) =~= lines_view(lines@));
    }
    commands
}


// ---------------------------------------------------------------------------
// Splitting known text
// ---------------------------------------------------------------------------

/// A nonempty run of characters none of which is whitespace.
pub open spec fn is_word(w: Seq<char>) -> bool {
    w.len() >= 1 && forall|k: int| 0 <= k < w.len() ==> !is_ws(#[trigger] w[k])
}

/// Splitting `w r` (with one space between) gives back `w` and `r`.
pub proof fn lemma_split_word_of(w: Seq<char>, r: Seq<char>)
    requires
        is_word(w),
        r.len() >= 1,
        !is_ws(r[0]),
    ensures
        split_word(w + (seq![' '] + r)) == Some((w, r)),
{
    let s = w + (seq![' '] + r);
    crate::text::lemma_skip_ws_to(s, 0, 0);
    assert(trim_start(s) =~= s);
    crate::text::lemma_word_end_to(s, 0, w.len() as int);
    assert(s.subrange(0, w.len() as int) =~= w);
    let after = s.subrange(w.len() as int, s.len() as int);
    assert(after =~= seq![' '] + r);
    crate::text::lemma_skip_ws_to(after, 0, 1);
    assert(trim_start(after) =~= r);
}

/// Trimming whitespace in front of a text that neither starts nor ends with
/// whitespace gives the text.
pub proof fn lemma_trim_after_ws(pre: Seq<char>, x: Seq<char>)
    requires
        forall|k: int| 0 <= k < pre.len() ==> is_ws(#[trigger] pre[k]),
        x.len() >= 1,
        !is_ws(x[0]),
        !is_ws(x[x.len() - 1]),
    ensures
        trim(pre + x) == x,
{
    let s = pre + x;
    crate::text::lemma_skip_ws_to(s, 0, pre.len() as int);
    assert(trim_start(s) =~= x);
    crate::text::lemma_trim_unchanged(x);
}


// ---------------------------------------------------------------------------
// What reading a listing promises
// ---------------------------------------------------------------------------

/// Empty lines and lines beginning with `#` (after leading whitespace) are ignored.
pub proof fn lemma_blank_and_comment_lines_ignored(line: Seq<char>)
    requires
        trim(line).len() == 0 || trim(line)[0] == '#',
    ensures
        line_parse(line) is Skip,
{
}

/// A line holding nothing but an inode (and whitespace around it) asks for
/// that file to be deleted.
pub proof fn lemma_inode_only_deletes(pre: Seq<char>, inode: Seq<char>, post: Seq<char>)
    requires
        forall|k: int| 0 <= k < pre.len() ==> is_ws(#[trigger] pre[k]),
        forall|k: int| 0 <= k < post.len() ==> is_ws(#[trigger] post[k]),
        inode.len() >= 1,
        forall|k: int| 0 <= k < inode.len() ==> crate::text::is_hex(#[trigger] inode[k]),
    ensures
        line_parse(pre + inode + post) == LineParse::Entry(inode, CommandModel::Delete),
{
    let line = pre + inode + post;
    assert(!is_ws(inode[0])) by {
        assert(crate::text::is_hex(inode[0]));
    }
    assert(!is_ws(inode[inode.len() - 1])) by {
        assert(crate::text::is_hex(inode[inode.len() - 1]));
    }
    crate::text::lemma_skip_ws_to(line, 0, pre.len() as int);
    let ts = trim_start(line);
    assert(ts =~= inode + post);
    crate::text::lemma_back_ws_to(ts, inode.len() as int, ts.len() as int);
    assert(trim(line) =~= inode);
    crate::text::lemma_hex_end_to(inode, 0, inode.len() as int);
    let empty = inode.subrange(inode.len() as int, inode.len() as int);
    assert(empty.len() == 0);
    crate::text::lemma_skip_ws_to(empty, 0, 0);
    crate::text::lemma_back_ws_to(empty, 0, 0);
    assert(inode.subrange(0, inode.len() as int) =~= inode);
}

/// The commands read from any lines never hold an inode twice.
pub proof fn lemma_commands_distinct(lines: Seq<Seq<char>>)
    ensures
        keys_distinct(commands_of(lines)),
    decreases lines.len(),
{
    if lines.len() > 0 {
        lemma_commands_distinct(lines.drop_last());
        match line_parse(lines.last()) {
            LineParse::Entry(k, c) => lemma_insert_distinct(commands_of(lines.drop_last()), k, c),
            _ => {},
        }
    }
}

/// Reading one more line stores its command for its inode, replacing any
/// command that an earlier line gave for the same inode, and leaves every
/// other inode's command as it was.
pub proof fn lemma_later_line_replaces(lines: Seq<Seq<char>>, l: Seq<char>)
    ensures
        as_map(commands_of(lines.push(l))) == match line_parse(l) {
            LineParse::Entry(k, c) => as_map(commands_of(lines)).insert(k, c),
            _ => as_map(commands_of(lines)),
        },
{
    lemma_commands_distinct(lines);
    assert(lines.push(l).drop_last() =~= lines);
    match line_parse(l) {
        LineParse::Entry(k, c) => lemma_insert_as_map(commands_of(lines), k, c),
        _ => {},
    }
}

/// Line `l` reads as a command for the file with inode `k`.
pub open spec fn line_is_for(l: Seq<char>, k: Seq<char>) -> bool {
    line_parse(l) matches LineParse::Entry(key, _) && key == k
}

/// Reading a listing keeps exactly the inodes that some line reads as a
/// command for, and for each of them the command of the last such line:
/// a later line for the same inode overrides earlier ones, and lines that
/// read as no command are ignored.
pub proof fn lemma_last_line_wins(lines: Seq<Seq<char>>, k: Seq<char>)
    ensures
        as_map(commands_of(lines)).contains_key(k) <==> exists|i: int|
            0 <= i < lines.len() && line_is_for(#[trigger] lines[i], k),
        forall|i: int|
            0 <= i < lines.len() && line_is_for(#[trigger] lines[i], k) && (forall|j: int|
                i < j < lines.len() ==> !line_is_for(#[trigger] lines[j], k)) ==> line_parse(lines[i])
                == LineParse::Entry(k, as_map(commands_of(lines))[k]),
    decreases lines.len(),
{
    if lines.len() == 0 {
        assert(!as_map(commands_of(lines)).contains_key(k));
    } else {
        let prev = lines.drop_last();
        let l = lines.last();
        lemma_last_line_wins(prev, k);
        lemma_later_line_replaces(prev, l);
        assert(prev.push(l) =~= lines);
        let n = lines.len() - 1;
        assert(lines[n] == l);
        assert forall|i: int| 0 <= i < n implies lines[i] == prev[i] by {}
        if line_is_for(l, k) {
            assert(line_is_for(lines[n], k));
            assert forall|i: int|
                0 <= i < lines.len() && line_is_for(#[trigger] lines[i], k) && (forall|j: int|
                    i < j < lines.len() ==> !line_is_for(#[trigger] lines[j], k)) implies line_parse(lines[i])
                    == LineParse::Entry(k, as_map(commands_of(lines))[k]) by {
                if i < n {
                    assert(!line_is_for(lines[n], k));
                }
            }
        } else {
            assert(as_map(commands_of(lines)).contains_key(k) == as_map(commands_of(prev)).contains_key(k));
            assert(as_map(commands_of(lines))[k] == as_map(commands_of(prev))[k]);
            if as_map(commands_of(lines)).contains_key(k) {
                let i = choose|i: int| 0 <= i < prev.len() && line_is_for(#[trigger] prev[i], k);
                assert(line_is_for(lines[i], k));
            }
            if exists|i: int| 0 <= i < lines.len() && line_is_for(#[trigger] lines[i], k) {
                let i = choose|i: int| 0 <= i < lines.len() && line_is_for(#[trigger] lines[i], k);
                assert(i != n);
                assert(line_is_for(prev[i], k));
            }
            assert forall|i: int|
                0 <= i < lines.len() && line_is_for(#[trigger] lines[i], k) && (forall|j: int|
                    i < j < lines.len() ==> !line_is_for(#[trigger] lines[j], k)) implies line_parse(lines[i])
                    == LineParse::Entry(k, as_map(commands_of(lines))[k]) by {
                assert(i != n);
                assert(line_is_for(prev[i], k));
                assert forall|j: int| i < j < prev.len() implies !line_is_for(#[trigger] prev[j], k) by {
                    assert(!line_is_for(lines[j], k));
                }
            }
        }
    }
}

} // verus!
