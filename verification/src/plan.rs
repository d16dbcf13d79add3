//! What applying the commands of an edited listing to the listed files comes
//! to: a sequence of file operations, which the caller carries out.

use vstd::prelude::*;
use crate::command::{
    as_map, commands_of, insert_entry, is_word, kept, key_index, lemma_last_line_wins,
    lemma_split_word_of, lemma_trim_after_ws, line_is_for, line_parse, lines_slice_cleanly,
    update_parse, Command, CommandMap, CommandModel, LineParse,
};
use crate::datetime::{
    datetime_parse, datetime_value, fits_listing_format, lemma_mtime_text_reads_back,
    lemma_mtime_text_one_line, lemma_written_time_value, reads_as_instant,
};
use crate::listing::{
    find_from, join_lines, lemma_find_from_bounds, lemma_find_from_complete, mode_text, Directories,
    FileInfo, FileList,
};
use crate::text::{
    fill, is_hex, is_ws, lemma_no_newline_char, lemma_no_newline_concat,
    lemma_no_newline_digits_or_word, lemma_text_lines_first, lemma_text_lines_single, no_newline,
    radix_digits, strip_cr, text_lines, trim,
};

verus! {

/// One change to a file: `rm`, `chmod`, `touch -m`, `chown`, `chgrp` or `mv`.
pub enum Operation {
    Remove { path: String },
    Chmod { path: String, mode: u32 },
    Touch { path: String, mtime: u64 },
    Chown { path: String, user: String },
    Chgrp { path: String, group: String },
    Rename { from: String, to: String },
}

pub enum OperationModel {
    Remove { path: Seq<char> },
    Chmod { path: Seq<char>, mode: u32 },
    Touch { path: Seq<char>, mtime: u64 },
    Chown { path: Seq<char>, user: Seq<char> },
    Chgrp { path: Seq<char>, group: Seq<char> },
    Rename { from: Seq<char>, to: Seq<char> },
}

impl View for Operation {
    type V = OperationModel;

    open spec fn view(&self) -> OperationModel {
        match self {
            Operation::Remove { path } => OperationModel::Remove { path: path@ },
            Operation::Chmod { path, mode } => OperationModel::Chmod { path: path@, mode: *mode },
            Operation::Touch { path, mtime } => OperationModel::Touch { path: path@, mtime: *mtime },
            Operation::Chown { path, user } => OperationModel::Chown { path: path@, user: user@ },
            Operation::Chgrp { path, group } => OperationModel::Chgrp { path: path@, group: group@ },
            Operation::Rename { from, to } => OperationModel::Rename { from: from@, to: to@ },
        }
    }
}

pub open spec fn ops_view(ops: Seq<Operation>) -> Seq<OperationModel> {
    ops.map_values(|o: Operation| o@)
}

/// A path holding a NUL character cannot be handed to the C library.
pub open spec fn has_nul(p: Seq<char>) -> bool {
    exists|i: int| 0 <= i < p.len() && p[i] == '\0'
}

/// The operations that bring a listed file in line with a command: delete
/// it; or, for an update, change each of mode, time, owner, group and name
/// that differs from the listing, in that order (the rename last, so the
/// others act on the old name).
pub open spec fn ops_for(c: CommandModel, f: FileInfo) -> Seq<OperationModel> {
    let path = f.filename@;
    match c {
        CommandModel::Delete => seq![OperationModel::Remove { path }],
        CommandModel::Update { mode, user, group, datetime, mtime, filename } => if has_nul(path) {
            Seq::empty()
        } else {
            (if mode != f.mode {
                seq![OperationModel::Chmod { path, mode }]
            } else {
                Seq::empty()
            }) + (if datetime != f.mtime_string_text() {
                seq![OperationModel::Touch { path, mtime }]
            } else {
                Seq::empty()
            }) + (if user != f.username_text() {
                seq![OperationModel::Chown { path, user }]
            } else {
                Seq::empty()
            }) + (if group != f.groupname_text() {
                seq![OperationModel::Chgrp { path, group }]
            } else {
                Seq::empty()
            }) + (if filename != path {
                seq![OperationModel::Rename { from: path, to: filename }]
            } else {
                Seq::empty()
            })
        },
    }
}

fn contains_nul(s: &String) -> (r: bool)
    ensures
        r == has_nul(s@),
{
    let v = crate::text::chars_of(s.as_str());
    let mut i: usize = 0;
    while i < v.len()
        invariant
            i <= v.len(),
            v@ == s@,
            forall|j: int| 0 <= j < i ==> v@[j] != '\0',
        decreases v.len() - i,
    {
        if v[i] == '\0' {
            return true;
        }
        i = i + 1;
    }
    false
}

impl Command {
    /// The operations that applying this command to `file` consists of.
    pub fn apply_to(&self, file: &FileInfo) -> (ops: Vec<Operation>)
        ensures
            ops_view(ops@) == ops_for(self@, *file),
    {
        let mut ops: Vec<Operation> = Vec::new();
        match self {
            Command::Delete => {
                ops.push(Operation::Remove { path: file.filename.clone() });
            },
            Command::Update { mode, user, group, datetime, mtime, filename } => {
                if contains_nul(&file.filename) {
                    assert(ops_view(ops@) =~= ops_for(self@, *file));
                    return ops;
                }
                if *mode != file.mode {
                    ops.push(Operation::Chmod { path: file.filename.clone(), mode: *mode });
                }
                if *datetime != file.mtime_string() {
                    ops.push(Operation::Touch { path: file.filename.clone(), mtime: *mtime });
                }
                if *user != file.username() {
                    ops.push(Operation::Chown { path: file.filename.clone(), user: user.clone() });
                }
                if *group != file.groupname() {
                    ops.push(Operation::Chgrp { path: file.filename.clone(), group: group.clone() });
                }
                if *filename != file.filename {
                    ops.push(Operation::Rename { from: file.filename.clone(), to: filename.clone() });
                }
            },
        }
        assert(ops_view(ops@) =~= ops_for(self@, *file));
        ops
    }
}

/// The first listed file with inode `key`: the first listing holding one,
/// and the first such file in it.
pub open spec fn dirs_find(dirs: Seq<FileList>, key: Seq<char>, d: int) -> Option<FileInfo>
    decreases dirs.len() - d,
{
    if d < 0 || d >= dirs.len() {
        None
    } else {
        let j = find_from(dirs[d].files@, key, 0);
        if j >= 0 {
            Some(dirs[d].files@[j])
        } else {
            dirs_find(dirs, key, d + 1)
        }
    }
}

/// The operations for each command whose inode is listed, in command order.
pub open spec fn planned(dirs: Seq<FileList>, es: Seq<(Seq<char>, CommandModel)>) -> Seq<OperationModel>
    decreases es.len(),
{
    if es.len() == 0 {
        Seq::empty()
    } else {
        planned(dirs, es.drop_last()) + match dirs_find(dirs, es.last().0, 0) {
            Some(f) => ops_for(es.last().1, f),
            None => Seq::empty(),
        }
    }
}

/// For each command, whether its inode is missing from every listing.
pub open spec fn unmatched_flags(dirs: Seq<FileList>, es: Seq<(Seq<char>, CommandModel)>) -> Seq<bool> {
    Seq::new(es.len(), |i: int| dirs_find(dirs, es[i].0, 0) is None)
}

impl Directories {
    /// The first listed file with the given inode.
    fn find_file(&self, key: &String) -> (r: Option<&FileInfo>)
        ensures
            match dirs_find(self.dirs@, key@, 0) {
                Some(f) => r matches Some(g) && *g == f,
                None => r is None,
            },
    {
        let mut d: usize = 0;
        while d < self.dirs.len()
            invariant
                d <= self.dirs@.len(),
                dirs_find(self.dirs@, key@, 0) == dirs_find(self.dirs@, key@, d as int),
            decreases self.dirs.len() - d,
        {
            match self.dirs[d].find(key.as_str()) {
                Some(f) => {
                    return Some(f);
                },
                None => {},
            }
            d = d + 1;
        }
        None
    }

    /// Applies the commands to the listed files: every command whose inode is
    /// listed yields its operations (for the first file listed with that
    /// inode) and leaves `commands`; the commands whose inode is not listed
    /// stay.
    pub fn apply(&self, commands: &mut CommandMap) -> (ops: Vec<Operation>)
        ensures
            ops_view(ops@) == planned(self.dirs@, old(commands)@),
            final(commands)@ == kept(old(commands)@, unmatched_flags(self.dirs@, old(commands)@)),
    {
        let ghost es = commands@;
        let mut ops: Vec<Operation> = Vec::new();
        let mut keep: Vec<bool> = Vec::new();
        let entries = commands.entries();
        let n = entries.len();
        let mut i: usize = 0;
        while i < n
            invariant
                i <= n,
                n == es.len(),
                entries@.len() == n,
                forall|k: int| 0 <= k < n ==> (#[trigger] entries@[k]).0@ == es[k].0 && entries@[k].1@ == es[k].1,
                ops_view(ops@) == planned(self.dirs@, es.subrange(0, i as int)),
                keep@ == unmatched_flags(self.dirs@, es).subrange(0, i as int),
            decreases n - i,
        {
            let ghost pre = es.subrange(0, i + 1);
            proof {
                assert(pre.drop_last() =~= es.subrange(0, i as int));
                assert(pre.last() == es[i as int]);
            }
            let (key, cmd) = &entries[i];
            match self.find_file(key) {
                Some(f) => {
                    let mut more = cmd.apply_to(f);
                    let ghost before = ops_view(ops@);
                    ops.append(&mut more);
                    keep.push(false);
                    proof {
                        assert(ops_view(ops@) =~= before + ops_for(es[i as int].1, *f));
                    }
                },
                None => {
                    keep.push(true);
                    proof {
                        assert(ops_view(ops@) =~= planned(self.dirs@, pre));
                    }
                },
            }
            proof {
                assert(keep@ =~= unmatched_flags(self.dirs@, es).subrange(0, i + 1));
            }
            i = i + 1;
        }
        proof {
            assert(es.subrange(0, n as int) =~= es);
            assert(keep@ =~= unmatched_flags(self.dirs@, es));
        }
        commands.retain(&keep);
        ops
    }
}


// ---------------------------------------------------------------------------
// An unedited listing line changes nothing
// ---------------------------------------------------------------------------

/// The fields of a file's listing line up to its name read back as written:
/// a hexadecimal inode, owner and group names that are single words, and a
/// modification time that fits the listing format.
pub open spec fn fields_read_back(f: FileInfo) -> bool {
    &&& f.inode_hex@.len() >= 1
    &&& forall|k: int| 0 <= k < f.inode_hex@.len() ==> is_hex(#[trigger] f.inode_hex@[k])
    &&& is_word(f.username_text())
    &&& is_word(f.groupname_text())
    &&& fits_listing_format(f.local_mtime)
}

/// A name holding some character other than whitespace.
pub open spec fn has_visible_char(name: Seq<char>) -> bool {
    exists|p: int| 0 <= p < name.len() && !is_ws(#[trigger] name[p])
}

/// A file whose listing line reads back field by field, its name included:
/// the fields up to the name read back, and the name neither starts nor ends
/// with whitespace.
pub open spec fn line_reads_back(f: FileInfo) -> bool {
    &&& fields_read_back(f)
    &&& f.filename@.len() >= 1
    &&& !is_ws(f.filename@[0])
    &&& !is_ws(f.filename@[f.filename@.len() - 1])
}

/// The listing line of `f` from the time on, with `name` in place of its name.
spec fn after_group_with(f: FileInfo, name: Seq<char>) -> Seq<char> {
    f.mtime_string_text() + (seq![' '] + name)
}

/// The listing line of `f` from the owner on, with `name` in place of its name.
spec fn after_mode_with(f: FileInfo, name: Seq<char>) -> Seq<char> {
    f.username_text() + (seq![' '] + (f.groupname_text() + (seq![' '] + after_group_with(f, name))))
}

/// The listing line of `f` with `name` in place of its name.
spec fn line_with(f: FileInfo, name: Seq<char>) -> Seq<char> {
    f.inode_hex@ + (seq![' '] + (mode_text(f.mode) + (seq![' '] + after_mode_with(f, name))))
}

/// The text after the inode of a listing line, trimmed: the mode's digits
/// and everything after them.
proof fn lemma_line_rest(f: FileInfo, name: Seq<char>)
    requires
        fields_read_back(f),
        name.len() >= 1,
        !is_ws(name[name.len() - 1]),
    ensures
        ({
            let line = line_with(f, name);
            let k = f.inode_hex@.len() as int;
            &&& trim(line) == line
            &&& line.len() > 0 && line[0] != '#'
            &&& crate::text::hex_end(line, 0) == k
            &&& line.subrange(0, k) == f.inode_hex@
            &&& trim(line.subrange(k, line.len() as int)) == radix_digits(f.mode as nat, 8) + (seq![' ']
                + after_mode_with(f, name))
        }),
{
    let sp = seq![' '];
    let ino = f.inode_hex@;
    let ds = radix_digits(f.mode as nat, 8);
    let line = line_with(f, name);
    let k = ino.len() as int;
    let ag = after_group_with(f, name);
    let ao = f.groupname_text() + (sp + ag);
    let am = after_mode_with(f, name);
    let last = name[name.len() - 1];
    crate::text::lemma_octal_reads_back(f.mode);
    crate::text::lemma_radix_digits_value(f.mode as nat, 8);
    assert(!is_ws(ino[0])) by {
        assert(is_hex(ino[0]));
    }
    assert(!is_ws(ds[0])) by {
        assert(crate::text::is_digit(ds[0]));
    }
    let tail = sp + (mode_text(f.mode) + (sp + am));
    let rest = ds + (sp + am);
    assert(line == ino + tail);
    assert(line[0] == ino[0]);
    assert(ag[ag.len() - 1] == last);
    assert(ao[ao.len() - 1] == last);
    assert(am[am.len() - 1] == last);
    assert(tail[tail.len() - 1] == last);
    assert(line[line.len() - 1] == tail[tail.len() - 1]);
    crate::text::lemma_trim_unchanged(line);
    assert(line[k] == ' ');
    crate::text::lemma_hex_end_to(line, 0, k);
    assert(line.subrange(0, k) =~= ino);
    assert(line.subrange(k, line.len() as int) =~= tail);
    let pre = sp + fill(' ', 6 - ds.len());
    assert(tail =~= pre + rest);
    assert(rest[rest.len() - 1] == last);
    assert forall|j: int| 0 <= j < pre.len() implies is_ws(#[trigger] pre[j]) by {
        assert(pre[j] == ' ');
    }
    lemma_trim_after_ws(pre, rest);
}

/// The structure of a listing line: reading it comes down to reading the
/// fields after the group.
proof fn lemma_line_structure(f: FileInfo, name: Seq<char>)
    requires
        fields_read_back(f),
        name.len() >= 1,
        !is_ws(name[name.len() - 1]),
    ensures
        line_parse(line_with(f, name)) == update_parse(
            f.inode_hex@,
            radix_digits(f.mode as nat, 8),
            f.username_text(),
            f.groupname_text(),
            after_group_with(f, name),
        ),
{
    let sp = seq![' '];
    let ds = radix_digits(f.mode as nat, 8);
    let u = f.username_text();
    let g = f.groupname_text();
    let t = f.mtime_string_text();
    let a3 = after_group_with(f, name);
    let a2 = g + (sp + a3);
    let a1 = after_mode_with(f, name);
    crate::text::lemma_octal_reads_back(f.mode);
    crate::text::lemma_radix_digits_value(f.mode as nat, 8);
    lemma_mtime_text_reads_back(f.local_mtime);
    lemma_line_rest(f, name);
    assert(!is_ws(t[0]));
    assert(a1[0] == u[0]);
    lemma_split_word_of(ds, a1);
    assert(a2[0] == g[0]);
    lemma_split_word_of(u, a2);
    assert(a3[0] == t[0]);
    lemma_split_word_of(g, a3);
}

/// The fields after the group of a listing line: the time and the name.
proof fn lemma_line_tail(f: FileInfo, name: Seq<char>)
    requires
        fields_read_back(f),
        name.len() >= 1,
        !is_ws(name[name.len() - 1]),
    ensures
        !(datetime_parse(f.mtime_string_text()) is Panic),
        update_parse(
            f.inode_hex@,
            radix_digits(f.mode as nat, 8),
            f.username_text(),
            f.groupname_text(),
            after_group_with(f, name),
        ) == match datetime_value(f.mtime_string_text()) {
            Some(m) => LineParse::Entry(
                f.inode_hex@,
                CommandModel::Update {
                    mode: f.mode,
                    user: f.username_text(),
                    group: f.groupname_text(),
                    datetime: f.mtime_string_text(),
                    mtime: m,
                    filename: trim(name),
                },
            ),
            None => LineParse::Skip,
        },
{
    let sp = seq![' '];
    let t = f.mtime_string_text();
    let a3 = t + (sp + name);
    crate::text::lemma_octal_reads_back(f.mode);
    lemma_mtime_text_reads_back(f.local_mtime);
    assert(a3.subrange(0, 25) =~= t);
    crate::text::lemma_byte_len_concat(t, sp + name);
    crate::text::lemma_ascii_byte_len(t);
    crate::text::lemma_boundary_unique(a3, 25, 25);
    assert(a3.subrange(25, a3.len() as int) =~= sp + name);
    assert forall|k: int| 0 <= k < sp.len() implies is_ws(#[trigger] sp[k]) by {}
    crate::text::lemma_trim_ws_prefix(sp, name);
    crate::text::lemma_trim_around(name, name.len() - 1);
}

/// A listing line reads back as the file's own inode, mode, owner, group and
/// time, with its name trimmed (or is skipped, when the time it shows reads as
/// no instant), as long as the fields up to the name read back and the name
/// holds a character other than whitespace.
pub proof fn lemma_listing_line_reads_back(f: FileInfo)
    requires
        fields_read_back(f),
        has_visible_char(f.filename@),
    ensures
        !(line_parse(f.line_text()) is Panic),
        line_parse(f.line_text()) == match datetime_value(f.mtime_string_text()) {
            Some(m) => LineParse::Entry(
                f.inode_hex@,
                CommandModel::Update {
                    mode: f.mode,
                    user: f.username_text(),
                    group: f.groupname_text(),
                    datetime: f.mtime_string_text(),
                    mtime: m,
                    filename: trim(f.filename@),
                },
            ),
            None => LineParse::Skip,
        },
{
    let fname = f.filename@;
    let p = choose|p: int| 0 <= p < fname.len() && !is_ws(#[trigger] fname[p]);
    crate::text::lemma_trim_around(fname, p);
    let fe = crate::text::trim_end(fname);
    lemma_trimmed_line(f, p);
    lemma_line_rest(f, fe);
    assert(trim(f.line_text()) == trim(line_with(f, fe)));
    assert(line_parse(f.line_text()) == line_parse(line_with(f, fe)));
    lemma_line_structure(f, fe);
    lemma_line_tail(f, fe);
}

/// Appending to the name appends to the line.
proof fn lemma_line_with_append(f: FileInfo, a: Seq<char>, c: Seq<char>)
    ensures
        line_with(f, a + c) == line_with(f, a) + c,
{
    assert(after_group_with(f, a + c) =~= after_group_with(f, a) + c);
    assert(after_mode_with(f, a + c) =~= after_mode_with(f, a) + c);
    assert(line_with(f, a + c) =~= line_with(f, a) + c);
}

/// Trimming a listing line drops the whitespace at the end of the name.
proof fn lemma_trimmed_line(f: FileInfo, p: int)
    requires
        fields_read_back(f),
        0 <= p < f.filename@.len(),
        !is_ws(f.filename@[p]),
    ensures
        trim(f.line_text()) == line_with(f, crate::text::trim_end(f.filename@)),
{
    let fname = f.filename@;
    crate::text::lemma_trim_around(fname, p);
    crate::text::lemma_back_ws_bounds(fname, fname.len() as int);
    let b = crate::text::back_ws(fname, fname.len() as int);
    let fe = crate::text::trim_end(fname);
    let cut = fname.subrange(b, fname.len() as int);
    assert(fname =~= fe + cut);
    let line = f.line_text();
    let short = line_with(f, fe);
    assert(line == line_with(f, fname));
    lemma_line_with_append(f, fe, cut);
    assert(line == short + cut);
    let n = short.len() as int;
    assert forall|k: int| n <= k < line.len() implies is_ws(#[trigger] line[k]) by {
        assert(line[k] == cut[k - n]);
        assert(cut[k - n] == fname[b + k - n]);
    }
    assert(line[n - 1] == short[n - 1]);
    assert(short[n - 1] == fe[fe.len() - 1]);
    crate::text::lemma_back_ws_to(line, n, line.len() as int);
    assert(is_hex(f.inode_hex@[0]));
    assert(short[0] == f.inode_hex@[0]);
    assert(line[0] == short[0]);
    crate::text::lemma_skip_ws_to(line, 0, 0);
    assert(crate::text::trim_start(line) =~= line);
    assert(trim(line) =~= short);
}

/// A listing line read back unedited gives the file's own inode, mode, owner,
/// group, time and name (or is skipped, when its time is before the epoch),
/// and applying it to the file changes nothing.
pub proof fn lemma_unedited_line_changes_nothing(f: FileInfo)
    requires
        line_reads_back(f),
    ensures
        !(line_parse(f.line_text()) is Panic),
        match datetime_value(f.mtime_string_text()) {
            Some(m) => line_parse(f.line_text()) == LineParse::Entry(
                f.inode_hex@,
                CommandModel::Update {
                    mode: f.mode,
                    user: f.username_text(),
                    group: f.groupname_text(),
                    datetime: f.mtime_string_text(),
                    mtime: m,
                    filename: f.filename@,
                },
            ),
            None => line_parse(f.line_text()) is Skip,
        },
        line_parse(f.line_text()) matches LineParse::Entry(k, c) ==> k == f.inode_hex@ && ops_for(c, f)
            == Seq::<OperationModel>::empty(),
{
    let fname = f.filename@;
    crate::text::lemma_trim_unchanged(fname);
    assert(!is_ws(fname[0]));
    lemma_listing_line_reads_back(f);
    match datetime_value(f.mtime_string_text()) {
        Some(m) => {
            let c = CommandModel::Update {
                mode: f.mode,
                user: f.username_text(),
                group: f.groupname_text(),
                datetime: f.mtime_string_text(),
                mtime: m,
                filename: f.filename@,
            };
            assert(ops_for(c, f) =~= Seq::<OperationModel>::empty());
        },
        None => {},
    }
}


// ---------------------------------------------------------------------------
// An unedited listing changes nothing
// ---------------------------------------------------------------------------

pub open spec fn valid_pos(dirs: Seq<FileList>, d: int, j: int) -> bool {
    0 <= d < dirs.len() && 0 <= j < dirs[d].files@.len()
}

/// No inode is listed twice, in one listing or across listings.
pub open spec fn inodes_distinct(dirs: Seq<FileList>) -> bool {
    forall|d1: int, j1: int, d2: int, j2: int|
        valid_pos(dirs, d1, j1) && valid_pos(dirs, d2, j2) && (#[trigger] dirs[d1].files@[j1]).inode_hex@
            == (#[trigger] dirs[d2].files@[j2]).inode_hex@ ==> d1 == d2 && j1 == j2
}

/// Every listed file's line reads back field by field.
pub open spec fn all_read_back(dirs: Seq<FileList>) -> bool {
    forall|d: int, j: int| valid_pos(dirs, d, j) ==> line_reads_back(#[trigger] dirs[d].files@[j])
}

/// The lines of the listings, in order (without the path headings, which are comments).
pub open spec fn listing_lines(dirs: Seq<FileList>) -> Seq<Seq<char>>
    decreases dirs.len(),
{
    if dirs.len() == 0 {
        Seq::empty()
    } else {
        listing_lines(dirs.drop_last()) + dirs.last().files@.map_values(|f: FileInfo| f.line_text())
    }
}

/// A command is for a listed file with its inode, and changes nothing in it.
pub open spec fn changes_nothing(dirs: Seq<FileList>, e: (Seq<char>, CommandModel)) -> bool {
    exists|d: int, j: int|
        valid_pos(dirs, d, j) && e.0 == (#[trigger] dirs[d].files@[j]).inode_hex@ && ops_for(e.1, dirs[d].files@[j])
            == Seq::<OperationModel>::empty()
}

/// `l` is the line of some listed file.
pub open spec fn is_file_line(dirs: Seq<FileList>, l: Seq<char>) -> bool {
    exists|d: int, j: int| #![trigger dirs[d].files@[j]] valid_pos(dirs, d, j) && l == dirs[d].files@[j].line_text()
}

proof fn lemma_listing_lines_are_file_lines(dirs: Seq<FileList>)
    ensures
        forall|i: int| 0 <= i < listing_lines(dirs).len() ==> is_file_line(dirs, #[trigger] listing_lines(dirs)[i]),
    decreases dirs.len(),
{
    if dirs.len() > 0 {
        let prev = dirs.drop_last();
        lemma_listing_lines_are_file_lines(prev);
        let last = dirs.last().files@.map_values(|f: FileInfo| f.line_text());
        let pl = listing_lines(prev);
        let ls = listing_lines(dirs);
        assert(ls == pl + last);
        assert forall|i: int| 0 <= i < ls.len() implies is_file_line(dirs, #[trigger] ls[i]) by {
            if i < pl.len() {
                assert(is_file_line(prev, pl[i]));
                let (d, j) = choose|d: int, j: int| #![trigger prev[d].files@[j]]
                    valid_pos(prev, d, j) && pl[i] == prev[d].files@[j].line_text();
                assert(dirs[d] == prev[d]);
                assert(ls[i] == pl[i]);
                assert(valid_pos(dirs, d, j) && ls[i] == dirs[d].files@[j].line_text());
            } else {
                let j = i - pl.len();
                let d = dirs.len() - 1;
                assert(ls[i] == last[j]);
                assert(valid_pos(dirs, d, j) && ls[i] == dirs[d].files@[j].line_text());
            }
        }
    }
}

proof fn lemma_commands_change_nothing(dirs: Seq<FileList>, lines: Seq<Seq<char>>)
    requires
        all_read_back(dirs),
        forall|i: int| 0 <= i < lines.len() ==> is_file_line(dirs, #[trigger] lines[i]),
    ensures
        forall|i: int|
            0 <= i < commands_of(lines).len() ==> changes_nothing(dirs, #[trigger] commands_of(lines)[i]),
    decreases lines.len(),
{
    if lines.len() > 0 {
        let prev_lines = lines.drop_last();
        assert forall|i: int| 0 <= i < prev_lines.len() implies is_file_line(dirs, #[trigger] prev_lines[i]) by {
            assert(prev_lines[i] == lines[i]);
        }
        lemma_commands_change_nothing(dirs, prev_lines);
        let prev = commands_of(prev_lines);
        let l = lines.last();
        assert(is_file_line(dirs, lines[lines.len() - 1]));
        let (d, j) = choose|d: int, j: int| #![trigger dirs[d].files@[j]]
            valid_pos(dirs, d, j) && l == dirs[d].files@[j].line_text();
        let f = dirs[d].files@[j];
        assert(line_reads_back(f));
        lemma_unedited_line_changes_nothing(f);
        match line_parse(l) {
            LineParse::Entry(k, c) => {
                let es = insert_entry(prev, k, c);
                assert(changes_nothing(dirs, (k, c)));
                assert forall|i: int| 0 <= i < es.len() implies changes_nothing(dirs, #[trigger] es[i]) by {
                    if i < prev.len() && !(key_index(prev, k) >= 0 && i == key_index(prev, k)) {
                        assert(es[i] == prev[i]);
                    }
                }
            },
            _ => {},
        }
    }
}

proof fn lemma_dirs_find_listed(dirs: Seq<FileList>, k: Seq<char>, d: int, d0: int, j0: int)
    requires
        inodes_distinct(dirs),
        valid_pos(dirs, d0, j0),
        dirs[d0].files@[j0].inode_hex@ == k,
        0 <= d <= d0,
    ensures
        dirs_find(dirs, k, d) == Some(dirs[d0].files@[j0]),
    decreases d0 - d,
{
    let files = dirs[d].files@;
    let j = find_from(files, k, 0);
    lemma_find_from_bounds(files, k, 0);
    if j >= 0 {
        assert(valid_pos(dirs, d, j));
        assert(dirs[d].files@[j].inode_hex@ == dirs[d0].files@[j0].inode_hex@);
    } else if d == d0 {
        lemma_find_from_complete(files, k, 0, j0);
    } else {
        lemma_dirs_find_listed(dirs, k, d + 1, d0, j0);
    }
}

proof fn lemma_planned_nothing(dirs: Seq<FileList>, es: Seq<(Seq<char>, CommandModel)>)
    requires
        inodes_distinct(dirs),
        forall|i: int| 0 <= i < es.len() ==> changes_nothing(dirs, #[trigger] es[i]),
    ensures
        planned(dirs, es) == Seq::<OperationModel>::empty(),
    decreases es.len(),
{
    if es.len() > 0 {
        let prev = es.drop_last();
        assert forall|i: int| 0 <= i < prev.len() implies changes_nothing(dirs, #[trigger] prev[i]) by {
            assert(prev[i] == es[i]);
        }
        lemma_planned_nothing(dirs, prev);
        let e = es.last();
        assert(changes_nothing(dirs, es[es.len() - 1]));
        let (d, j) = choose|d: int, j: int|
            valid_pos(dirs, d, j) && e.0 == (#[trigger] dirs[d].files@[j]).inode_hex@ && ops_for(e.1, dirs[d].files@[j])
                == Seq::<OperationModel>::empty();
        lemma_dirs_find_listed(dirs, e.0, 0, d, j);
        assert(planned(dirs, es) =~= Seq::<OperationModel>::empty());
    }
}

/// Feeding a listing back unedited (the lines of every listing, in order)
/// plans no operation at all, as long as no inode is listed twice and every
/// line reads back field by field.
pub proof fn lemma_unedited_listing_changes_nothing(dirs: Seq<FileList>)
    requires
        all_read_back(dirs),
        inodes_distinct(dirs),
    ensures
        planned(dirs, commands_of(listing_lines(dirs))) == Seq::<OperationModel>::empty(),
{
    lemma_listing_lines_are_file_lines(dirs);
    lemma_commands_change_nothing(dirs, listing_lines(dirs));
    lemma_planned_nothing(dirs, commands_of(listing_lines(dirs)));
}


// ---------------------------------------------------------------------------
// Commands left over
// ---------------------------------------------------------------------------

proof fn lemma_leftovers_unmatched(dirs: Seq<FileList>, es: Seq<(Seq<char>, CommandModel)>)
    ensures
        forall|j: int|
            0 <= j < kept(es, unmatched_flags(dirs, es)).len() ==> dirs_find(
                dirs,
                (#[trigger] kept(es, unmatched_flags(dirs, es))[j]).0,
                0,
            ) is None,
    decreases es.len(),
{
    if es.len() > 0 {
        let rest = es.drop_first();
        let flags = unmatched_flags(dirs, es);
        assert(flags.drop_first() =~= unmatched_flags(dirs, rest));
        lemma_leftovers_unmatched(dirs, rest);
        let r = kept(rest, unmatched_flags(dirs, rest));
        let k = kept(es, flags);
        if flags[0] {
            assert forall|j: int| 0 <= j < k.len() implies dirs_find(dirs, (#[trigger] k[j]).0, 0) is None by {
                if j > 0 {
                    assert(k[j] == r[j - 1]);
                }
            }
        }
    }
}

proof fn lemma_kept_all(es: Seq<(Seq<char>, CommandModel)>, keep: Seq<bool>)
    requires
        keep.len() == es.len(),
        forall|j: int| 0 <= j < keep.len() ==> #[trigger] keep[j],
    ensures
        kept(es, keep) == es,
    decreases es.len(),
{
    if es.len() > 0 {
        lemma_kept_all(es.drop_first(), keep.drop_first());
        assert(keep[0]);
        assert(kept(es, keep) =~= es);
    }
}

proof fn lemma_planned_unmatched(dirs: Seq<FileList>, es: Seq<(Seq<char>, CommandModel)>)
    requires
        forall|j: int| 0 <= j < es.len() ==> dirs_find(dirs, (#[trigger] es[j]).0, 0) is None,
    ensures
        planned(dirs, es) == Seq::<OperationModel>::empty(),
    decreases es.len(),
{
    if es.len() > 0 {
        let prev = es.drop_last();
        assert forall|j: int| 0 <= j < prev.len() implies dirs_find(dirs, (#[trigger] prev[j]).0, 0) is None by {
            assert(prev[j] == es[j]);
        }
        lemma_planned_unmatched(dirs, prev);
        assert(dirs_find(dirs, es[es.len() - 1].0, 0) is None);
        assert(planned(dirs, es) =~= Seq::<OperationModel>::empty());
    }
}

/// Applying the commands that an application left over plans nothing and
/// leaves every one of them in place: each command is applied at most once.
pub proof fn lemma_leftovers_apply_nothing(dirs: Seq<FileList>, es: Seq<(Seq<char>, CommandModel)>)
    ensures
        ({
            let left = kept(es, unmatched_flags(dirs, es));
            &&& planned(dirs, left) == Seq::<OperationModel>::empty()
            &&& kept(left, unmatched_flags(dirs, left)) == left
        }),
{
    let left = kept(es, unmatched_flags(dirs, es));
    lemma_leftovers_unmatched(dirs, es);
    lemma_planned_unmatched(dirs, left);
    lemma_kept_all(left, unmatched_flags(dirs, left));
}


// ---------------------------------------------------------------------------
// A printed listing reads back
// ---------------------------------------------------------------------------

/// A listed file whose line reads back as a command for it: the fields up to
/// the name read back, the name holds a character other than whitespace, and
/// the time shown reads as an instant.
pub open spec fn line_names_file(f: FileInfo) -> bool {
    &&& fields_read_back(f)
    &&& has_visible_char(f.filename@)
    &&& reads_as_instant(f.local_mtime)
}

/// The listing line of a file whose name holds no newline is one line.
proof fn lemma_line_one_line(f: FileInfo)
    requires
        fields_read_back(f),
        no_newline(f.filename@),
    ensures
        no_newline(f.line_text()),
        f.line_text().len() > 0,
        !is_ws(f.line_text()[0]),
{
    let sp = seq![' '];
    let ino = f.inode_hex@;
    let ds = radix_digits(f.mode as nat, 8);
    let pad = fill(' ', 6 - ds.len());
    crate::text::lemma_octal_reads_back(f.mode);
    lemma_mtime_text_one_line(f.local_mtime);
    assert forall|k: int| 0 <= k < ino.len() implies !is_ws(#[trigger] ino[k]) by {
        assert(is_hex(ino[k]));
    }
    lemma_no_newline_digits_or_word(ino);
    lemma_no_newline_digits_or_word(ds);
    lemma_no_newline_digits_or_word(f.username_text());
    lemma_no_newline_digits_or_word(f.groupname_text());
    assert forall|k: int| 0 <= k < pad.len() implies #[trigger] pad[k] != '\n' by {
        assert(pad[k] == ' ');
    }
    lemma_no_newline_concat(pad, ds);
    assert(mode_text(f.mode) == pad + ds);
    lemma_no_newline_char(' ');
    let a3 = f.mtime_string_text() + (sp + f.filename@);
    lemma_no_newline_concat(sp, f.filename@);
    lemma_no_newline_concat(f.mtime_string_text(), sp + f.filename@);
    let a2 = f.groupname_text() + (sp + a3);
    lemma_no_newline_concat(sp, a3);
    lemma_no_newline_concat(f.groupname_text(), sp + a3);
    let a1 = f.username_text() + (sp + a2);
    lemma_no_newline_concat(sp, a2);
    lemma_no_newline_concat(f.username_text(), sp + a2);
    let m = mode_text(f.mode) + (sp + a1);
    lemma_no_newline_concat(sp, a1);
    lemma_no_newline_concat(mode_text(f.mode), sp + a1);
    lemma_no_newline_concat(sp, m);
    lemma_no_newline_concat(ino, sp + m);
    assert(f.line_text() == ino + (sp + m));
    assert(f.line_text()[0] == ino[0]);
}

/// A listing of two or more files is its first line, a newline, and the rest.
proof fn lemma_join_lines_front(files: Seq<FileInfo>)
    requires
        files.len() >= 2,
    ensures
        join_lines(files) == files[0].line_text() + (seq!['\n'] + join_lines(files.drop_first())),
    decreases files.len(),
{
    let rest = files.drop_first();
    let init = files.drop_last();
    if files.len() == 2 {
        assert(init[0] == files[0]);
        assert(rest[0] == files[1]);
        assert(join_lines(init) == files[0].line_text());
        assert(join_lines(rest) == files[1].line_text());
        assert(join_lines(files) =~= files[0].line_text() + (seq!['\n'] + join_lines(rest)));
    } else {
        lemma_join_lines_front(init);
        assert(init.drop_first() =~= rest.drop_last());
        assert(init[0] == files[0]);
        assert(rest.last() == files.last());
        assert(join_lines(files) =~= files[0].line_text() + (seq!['\n'] + join_lines(rest)));
    }
}

/// The lines that `str::lines` finds in a listing's text are the files'
/// lines, in order, each possibly without a `'\r'` at its end.
proof fn lemma_printed_lines(files: Seq<FileInfo>)
    requires
        forall|j: int| 0 <= j < files.len() ==> no_newline(#[trigger] files[j].line_text()),
        forall|j: int| 0 <= j < files.len() ==> (#[trigger] files[j].line_text()).len() > 0,
    ensures
        text_lines(join_lines(files)).len() == files.len(),
        forall|j: int|
            0 <= j < files.len() ==> #[trigger] text_lines(join_lines(files))[j] == files[j].line_text()
                || text_lines(join_lines(files))[j] == strip_cr(files[j].line_text()),
    decreases files.len(),
{
    if files.len() == 1 {
        assert(no_newline(files[0].line_text()));
        assert(files[0].line_text().len() > 0);
        lemma_text_lines_single(files[0].line_text());
    } else if files.len() >= 2 {
        let rest = files.drop_first();
        assert forall|j: int| 0 <= j < rest.len() implies no_newline(#[trigger] rest[j].line_text())
            && rest[j].line_text().len() > 0 by {
            assert(rest[j] == files[j + 1]);
        }
        lemma_printed_lines(rest);
        lemma_join_lines_front(files);
        assert(no_newline(files[0].line_text()));
        lemma_text_lines_first(files[0].line_text(), join_lines(rest));
        let tl = text_lines(join_lines(files));
        let tr = text_lines(join_lines(rest));
        assert forall|j: int| 0 <= j < files.len() implies #[trigger] tl[j] == files[j].line_text() || tl[j]
            == strip_cr(files[j].line_text()) by {
            if j > 0 {
                assert(tl[j] == tr[j - 1]);
                assert(rest[j - 1] == files[j]);
            }
        }
    }
}

/// Reading a line does not depend on a `'\r'` at its end.
proof fn lemma_line_parse_strip_cr(x: Seq<char>)
    requires
        x.len() > 0,
        !is_ws(x[0]),
    ensures
        line_parse(strip_cr(x)) == line_parse(x),
{
    crate::text::lemma_trim_strip_cr(x);
}

/// Reading back the lines of a printed listing (split as `str::lines` splits
/// them) never panics and gives a command for every listed file, under its
/// inode, as long as no file's name holds a newline.
pub proof fn lemma_printed_listing_reads_back(l: FileList)
    requires
        forall|j: int| 0 <= j < l.files@.len() ==> line_names_file(#[trigger] l.files@[j]),
        forall|j: int| 0 <= j < l.files@.len() ==> no_newline((#[trigger] l.files@[j]).filename@),
    ensures
        lines_slice_cleanly(text_lines(join_lines(l.files@))),
        forall|j: int|
            0 <= j < l.files@.len() ==> as_map(commands_of(text_lines(join_lines(l.files@)))).contains_key(
                (#[trigger] l.files@[j]).inode_hex@,
            ),
        l.files@.len() > 0 ==> commands_of(text_lines(join_lines(l.files@))).len() > 0,
{
    let files = l.files@;
    assert forall|j: int| 0 <= j < files.len() implies no_newline(#[trigger] files[j].line_text())
        && files[j].line_text().len() > 0 && !is_ws(files[j].line_text()[0]) by {
        assert(line_names_file(files[j]));
        lemma_line_one_line(files[j]);
    }
    lemma_printed_lines(files);
    let lines = text_lines(join_lines(files));
    assert forall|j: int| 0 <= j < files.len() implies #[trigger] line_is_for(lines[j], files[j].inode_hex@)
        && !(line_parse(lines[j]) is Panic) by {
        let f = files[j];
        assert(line_names_file(f));
        assert(f.line_text().len() > 0 && !is_ws(f.line_text()[0]));
        lemma_line_parse_strip_cr(f.line_text());
        assert(line_parse(lines[j]) == line_parse(f.line_text()));
        lemma_listing_line_reads_back(f);
        lemma_written_time_value(f.local_mtime);
    }
    assert forall|i: int| 0 <= i < lines.len() implies !(#[trigger] line_parse(lines[i]) is Panic) by {
        assert(line_is_for(lines[i], files[i].inode_hex@));
    }
    assert forall|j: int| 0 <= j < files.len() implies as_map(commands_of(lines)).contains_key(
        (#[trigger] files[j]).inode_hex@,
    ) by {
        assert(line_is_for(lines[j], files[j].inode_hex@));
        lemma_last_line_wins(lines, files[j].inode_hex@);
    }
    if files.len() > 0 {
        assert(as_map(commands_of(lines)).contains_key(files[0].inode_hex@));
    }
}

// ---------------------------------------------------------------------------
// What a command asks of a file
// ---------------------------------------------------------------------------

/// The place of an operation in the order in which a line's changes are made.
pub open spec fn op_rank(o: OperationModel) -> int {
    match o {
        OperationModel::Remove { .. } => 0,
        OperationModel::Chmod { .. } => 1,
        OperationModel::Touch { .. } => 2,
        OperationModel::Chown { .. } => 3,
        OperationModel::Chgrp { .. } => 4,
        OperationModel::Rename { .. } => 5,
    }
}

/// Operations in strictly increasing rank: in order, and no kind twice.
pub open spec fn ranked(ops: Seq<OperationModel>) -> bool {
    forall|i: int, j: int| 0 <= i < j < ops.len() ==> op_rank(ops[i]) < op_rank(ops[j])
}

/// `a` alone when `p` holds, else nothing.
spec fn part(p: bool, a: OperationModel) -> Seq<OperationModel> {
    if p {
        seq![a]
    } else {
        Seq::<OperationModel>::empty()
    }
}

proof fn lemma_part_contains(p: bool, a: OperationModel, o: OperationModel)
    ensures
        part(p, a).contains(o) <==> p && o == a,
{
    if p {
        if o == a {
            assert(seq![a][0] == o);
        }
    }
}

proof fn lemma_ranked_append(s: Seq<OperationModel>, p: bool, a: OperationModel)
    requires
        ranked(s),
        forall|i: int| 0 <= i < s.len() ==> op_rank(#[trigger] s[i]) < op_rank(a),
    ensures
        ranked(s + part(p, a)),
        forall|i: int| 0 <= i < (s + part(p, a)).len() ==> op_rank(#[trigger] (s + part(p, a))[i]) <= op_rank(a),
{
    let t = s + part(p, a);
    assert forall|i: int, j: int| 0 <= i < j < t.len() implies op_rank(t[i]) < op_rank(t[j]) by {
        assert(t[i] == s[i]);
        if j < s.len() {
            assert(t[j] == s[j]);
        } else {
            assert(t[j] == a);
        }
    }
    assert forall|i: int| 0 <= i < t.len() implies op_rank(#[trigger] t[i]) <= op_rank(a) by {
        if i < s.len() {
            assert(t[i] == s[i]);
        }
    }
}

/// Deleting a file is removing it. An update of a file whose path holds no
/// NUL makes exactly the changes whose column differs from the listing (a
/// new mode, time, owner, group or name), each once and in that order; an
/// update of a path that the C library cannot take makes none.
pub proof fn lemma_ops_follow_edited_columns(c: CommandModel, f: FileInfo)
    ensures
        ranked(ops_for(c, f)),
        match c {
            CommandModel::Delete => ops_for(c, f) == seq![OperationModel::Remove { path: f.filename@ }],
            CommandModel::Update { mode, user, group, datetime, mtime, filename } => if has_nul(
                f.filename@,
            ) {
                ops_for(c, f).len() == 0
            } else {
                forall|o: OperationModel|
                    #[trigger] ops_for(c, f).contains(o) <==> {
                        ||| o == OperationModel::Chmod { path: f.filename@, mode } && mode != f.mode
                        ||| o == OperationModel::Touch { path: f.filename@, mtime } && datetime
                            != f.mtime_string_text()
                        ||| o == OperationModel::Chown { path: f.filename@, user } && user
                            != f.username_text()
                        ||| o == OperationModel::Chgrp { path: f.filename@, group } && group
                            != f.groupname_text()
                        ||| o == OperationModel::Rename { from: f.filename@, to: filename } && filename
                            != f.filename@
                    }
            },
        },
{
    let path = f.filename@;
    match c {
        CommandModel::Delete => {
            let ops = seq![OperationModel::Remove { path }];
            assert forall|i: int, j: int| 0 <= i < j < ops.len() implies op_rank(ops[i]) < op_rank(ops[j]) by {}
        },
        CommandModel::Update { mode, user, group, datetime, mtime, filename } => {
            if !has_nul(path) {
                let a1 = OperationModel::Chmod { path, mode };
                let a2 = OperationModel::Touch { path, mtime };
                let a3 = OperationModel::Chown { path, user };
                let a4 = OperationModel::Chgrp { path, group };
                let a5 = OperationModel::Rename { from: path, to: filename };
                let p1 = mode != f.mode;
                let p2 = datetime != f.mtime_string_text();
                let p3 = user != f.username_text();
                let p4 = group != f.groupname_text();
                let p5 = filename != path;
                let e = Seq::<OperationModel>::empty();
                let x1 = part(p1, a1);
                let x2 = part(p2, a2);
                let x3 = part(p3, a3);
                let x4 = part(p4, a4);
                let x5 = part(p5, a5);
                let s1 = e + x1;
                let s2 = s1 + x2;
                let s3 = s2 + x3;
                let s4 = s3 + x4;
                let s5 = s4 + x5;
                assert(e + x1 =~= x1);
                assert(ops_for(c, f) == s5);
                lemma_ranked_append(e, p1, a1);
                lemma_ranked_append(s1, p2, a2);
                lemma_ranked_append(s2, p3, a3);
                lemma_ranked_append(s3, p4, a4);
                lemma_ranked_append(s4, p5, a5);
                assert forall|o: OperationModel| #[trigger] s5.contains(o) <==> {
                    ||| o == a1 && p1
                    ||| o == a2 && p2
                    ||| o == a3 && p3
                    ||| o == a4 && p4
                    ||| o == a5 && p5
                } by {
                    lemma_part_contains(p1, a1, o);
                    lemma_part_contains(p2, a2, o);
                    lemma_part_contains(p3, a3, o);
                    lemma_part_contains(p4, a4, o);
                    lemma_part_contains(p5, a5, o);
                    vstd::seq_lib::lemma_seq_concat_contains_all_elements(s1, x2, o);
                    vstd::seq_lib::lemma_seq_concat_contains_all_elements(s2, x3, o);
                    vstd::seq_lib::lemma_seq_concat_contains_all_elements(s3, x4, o);
                    vstd::seq_lib::lemma_seq_concat_contains_all_elements(s4, x5, o);
                }
            } else {
                assert(ops_for(c, f) =~= Seq::<OperationModel>::empty());
            }
        },
    }
}


// ---------------------------------------------------------------------------
// What applying commands plans
// ---------------------------------------------------------------------------

/// Commands one after the other plan their operations one after the other:
/// the plan of `a` followed by `b` is the plan of `a` followed by the plan of `b`.
pub proof fn lemma_planned_concat(
    dirs: Seq<FileList>,
    a: Seq<(Seq<char>, CommandModel)>,
    b: Seq<(Seq<char>, CommandModel)>,
)
    ensures
        planned(dirs, a + b) == planned(dirs, a) + planned(dirs, b),
    decreases b.len(),
{
    if b.len() == 0 {
        assert(a + b =~= a);
        assert(planned(dirs, a) + planned(dirs, b) =~= planned(dirs, a));
    } else {
        lemma_planned_concat(dirs, a, b.drop_last());
        assert((a + b).drop_last() =~= a + b.drop_last());
        assert((a + b).last() == b.last());
        assert(planned(dirs, a + b) =~= planned(dirs, a) + planned(dirs, b));
    }
}

proof fn lemma_dirs_find_first(dirs: Seq<FileList>, k: Seq<char>, d0: int, d: int, j: int)
    requires
        0 <= d0 <= d,
        valid_pos(dirs, d, j),
        dirs[d].files@[j].inode_hex@ == k,
        forall|d2: int, j2: int|
            valid_pos(dirs, d2, j2) && (d2 < d || (d2 == d && j2 < j)) ==> (#[trigger] dirs[d2].files@[j2]).inode_hex@
                != k,
    ensures
        dirs_find(dirs, k, d0) == Some(dirs[d].files@[j]),
    decreases d - d0,
{
    let files = dirs[d0].files@;
    lemma_find_from_bounds(files, k, 0);
    let i = find_from(files, k, 0);
    if d0 == d {
        lemma_find_from_complete(files, k, 0, j);
        if i < j {
            assert(valid_pos(dirs, d, i));
            assert(dirs[d].files@[i].inode_hex@ != k);
        }
    } else {
        if i >= 0 {
            assert(valid_pos(dirs, d0, i));
            assert(dirs[d0].files@[i].inode_hex@ != k);
        }
        lemma_dirs_find_first(dirs, k, d0 + 1, d, j);
    }
}

proof fn lemma_dirs_find_none(dirs: Seq<FileList>, k: Seq<char>, d0: int)
    requires
        0 <= d0,
        forall|d: int, j: int| valid_pos(dirs, d, j) ==> (#[trigger] dirs[d].files@[j]).inode_hex@ != k,
    ensures
        dirs_find(dirs, k, d0) is None,
    decreases dirs.len() - d0,
{
    if d0 < dirs.len() {
        let files = dirs[d0].files@;
        lemma_find_from_bounds(files, k, 0);
        let i = find_from(files, k, 0);
        if i >= 0 {
            assert(valid_pos(dirs, d0, i));
        }
        lemma_dirs_find_none(dirs, k, d0 + 1);
    }
}

/// A single command plans what it asks of the first file listed with its
/// inode: the first listing holding such a file, and the first such file in it.
pub proof fn lemma_planned_single_listed(dirs: Seq<FileList>, e: (Seq<char>, CommandModel), d: int, j: int)
    requires
        valid_pos(dirs, d, j),
        dirs[d].files@[j].inode_hex@ == e.0,
        forall|d2: int, j2: int|
            valid_pos(dirs, d2, j2) && (d2 < d || (d2 == d && j2 < j)) ==> (#[trigger] dirs[d2].files@[j2]).inode_hex@
                != e.0,
    ensures
        planned(dirs, seq![e]) == ops_for(e.1, dirs[d].files@[j]),
{
    lemma_dirs_find_first(dirs, e.0, 0, d, j);
    let s = seq![e];
    let none = Seq::<(Seq<char>, CommandModel)>::empty();
    assert(s.drop_last() =~= none);
    assert(planned(dirs, none) == Seq::<OperationModel>::empty());
    assert(s.last() == e);
    assert(planned(dirs, s) =~= ops_for(e.1, dirs[d].files@[j]));
}

/// A command whose inode no listing holds plans nothing.
pub proof fn lemma_planned_single_unlisted(dirs: Seq<FileList>, e: (Seq<char>, CommandModel))
    requires
        forall|d: int, j: int| valid_pos(dirs, d, j) ==> (#[trigger] dirs[d].files@[j]).inode_hex@ != e.0,
    ensures
        planned(dirs, seq![e]).len() == 0,
{
    lemma_dirs_find_none(dirs, e.0, 0);
    let s = seq![e];
    let none = Seq::<(Seq<char>, CommandModel)>::empty();
    assert(s.drop_last() =~= none);
    assert(planned(dirs, none) == Seq::<OperationModel>::empty());
    assert(s.last() == e);
}

} // verus!
