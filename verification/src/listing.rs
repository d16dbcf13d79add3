//! Files as listed (one line each), directory listings, and what applying
//! the commands of an edited listing to the listed files comes to.

use vstd::prelude::*;
use crate::datetime::{format_mtime, mtime_text, BrokenDownTime};
use crate::text::{
    is_hex, lemma_text_lines_newline_end, lemma_text_lines_single, lemma_text_lines_split, no_newline,
    pad_left, push_digits, push_number, push_str, radix_digits, strip_cr, string_of, text_lines,
};

verus! {

/// One listed file.  The names of its owner and group are what the user and
/// group databases gave for `uid` and `gid`, if anything, and `local_mtime`
/// is its modification time broken down in local time.
pub struct FileInfo {
    pub inode_hex: String,
    pub mode: u32,
    pub uid: u32,
    pub gid: u32,
    pub filename: String,
    pub user_name: Option<String>,
    pub group_name: Option<String>,
    pub local_mtime: BrokenDownTime,
}

/// A name from the user or group database, or else the decimal id.
pub open spec fn name_or_id(name: Option<String>, id: u32) -> Seq<char> {
    match name {
        Some(n) => n@,
        None => radix_digits(id as nat, 10),
    }
}

/// `format!("{:6o}", mode)`.
pub open spec fn mode_text(mode: u32) -> Seq<char> {
    pad_left(radix_digits(mode as nat, 8), 6, ' ')
}

/// A path with a leading `./` removed.
pub open spec fn strip_dot_slash(p: Seq<char>) -> Seq<char> {
    if p.len() >= 2 && p[0] == '.' && p[1] == '/' {
        p.subrange(2, p.len() as int)
    } else {
        p
    }
}

impl FileInfo {
    pub open spec fn username_text(self) -> Seq<char> {
        name_or_id(self.user_name, self.uid)
    }

    pub open spec fn groupname_text(self) -> Seq<char> {
        name_or_id(self.group_name, self.gid)
    }

    pub open spec fn mtime_string_text(self) -> Seq<char> {
        mtime_text(self.local_mtime)
    }

    /// The end of a listing line: the time and the name.
    pub open spec fn text_after_group(self) -> Seq<char> {
        self.mtime_string_text() + (seq![' '] + self.filename@)
    }

    /// The end of a listing line from the group on.
    pub open spec fn text_after_owner(self) -> Seq<char> {
        self.groupname_text() + (seq![' '] + self.text_after_group())
    }

    /// The end of a listing line from the owner on.
    pub open spec fn text_after_mode(self) -> Seq<char> {
        self.username_text() + (seq![' '] + self.text_after_owner())
    }

    /// The listing line: inode, mode, owner, group, time and name, separated by spaces.
    pub open spec fn line_text(self) -> Seq<char> {
        self.inode_hex@ + (seq![' '] + (mode_text(self.mode) + (seq![' '] + self.text_after_mode())))
    }

    /// A listed file from what the file system reported: the inode is written
    /// in lower-case hexadecimal and a leading `./` is dropped from the path.
    pub fn new(
        ino: u64,
        mode: u32,
        uid: u32,
        gid: u32,
        path: String,
        user_name: Option<String>,
        group_name: Option<String>,
        local_mtime: BrokenDownTime,
    ) -> (f: FileInfo)
        ensures
            f.inode_hex@ == radix_digits(ino as nat, 16),
            f.inode_hex@.len() >= 1,
            forall|k: int| 0 <= k < f.inode_hex@.len() ==> is_hex(#[trigger] f.inode_hex@[k]),
            f.mode == mode,
            f.uid == uid,
            f.gid == gid,
            f.filename@ == strip_dot_slash(path@),
            f.user_name == user_name,
            f.group_name == group_name,
            f.local_mtime == local_mtime,
    {
        let mut hex: Vec<char> = Vec::new();
        push_digits(&mut hex, ino, 16);
        let inode_hex = string_of(&hex, 0, hex.len());
        let chars = crate::text::chars_of(path.as_str());
        let filename = if chars.len() >= 2 && chars[0] == '.' && chars[1] == '/' {
            string_of(&chars, 2, chars.len())
        } else {
            path
        };
        proof {
            assert(hex@.subrange(0, hex@.len() as int) =~= hex@);
            crate::text::lemma_radix_digits_hex(ino as nat);
        }
        FileInfo { inode_hex, mode, uid, gid, filename, user_name, group_name, local_mtime }
    }

    /// The mode in octal, right-aligned in six columns.
    pub fn mode_octal(&self) -> (r: String)
        ensures
            r@ == mode_text(self.mode),
    {
        let mut out: Vec<char> = Vec::new();
        push_number(&mut out, self.mode as u64, 8, 6, ' ');
        string_of(&out, 0, out.len())
    }

    /// The owner's name, or the uid in decimal when the user database has none.
    pub fn username(&self) -> (r: String)
        ensures
            r@ == self.username_text(),
    {
        name_or_decimal(&self.user_name, self.uid)
    }

    /// The group's name, or the gid in decimal when the group database has none.
    pub fn groupname(&self) -> (r: String)
        ensures
            r@ == self.groupname_text(),
    {
        name_or_decimal(&self.group_name, self.gid)
    }

    /// The modification time as written in a listing.
    pub fn mtime_string(&self) -> (r: String)
        ensures
            r@ == self.mtime_string_text(),
    {
        format_mtime(&self.local_mtime)
    }

    /// The listing line of this file.
    pub fn to_string(&self) -> (r: String)
        ensures
            r@ == self.line_text(),
    {
        let mut out: Vec<char> = Vec::new();
        push_str(&mut out, self.inode_hex.as_str());
        out.push(' ');
        push_str(&mut out, self.mode_octal().as_str());
        out.push(' ');
        push_str(&mut out, self.username().as_str());
        out.push(' ');
        push_str(&mut out, self.groupname().as_str());
        out.push(' ');
        push_str(&mut out, self.mtime_string().as_str());
        out.push(' ');
        push_str(&mut out, self.filename.as_str());
        assert(out@ =~= self.line_text());
        string_of(&out, 0, out.len())
    }
}

fn name_or_decimal(name: &Option<String>, id: u32) -> (r: String)
    ensures
        r@ == name_or_id(*name, id),
{
    match name {
        Some(n) => n.clone(),
        None => {
            let mut out: Vec<char> = Vec::new();
            push_digits(&mut out, id as u64, 10);
            assert(out@ =~= radix_digits(id as nat, 10));
            string_of(&out, 0, out.len())
        },
    }
}

// ---------------------------------------------------------------------------
// Listings
// ---------------------------------------------------------------------------

/// The files found under one path.
pub struct FileList {
    pub name: String,
    pub files: Vec<FileInfo>,
}

/// Lines joined by newlines, without a final newline.
pub open spec fn join_lines(files: Seq<FileInfo>) -> Seq<char>
    decreases files.len(),
{
    if files.len() == 0 {
        Seq::empty()
    } else if files.len() == 1 {
        files[0].line_text()
    } else {
        join_lines(files.drop_last()) + seq!['\n'] + files.last().line_text()
    }
}

/// Index of the first file with inode `key` at or after `i`, or `-1`.
pub open spec fn find_from(files: Seq<FileInfo>, key: Seq<char>, i: int) -> int
    decreases files.len() - i,
{
    if i < 0 || i >= files.len() {
        -1
    } else if files[i].inode_hex@ == key {
        i
    } else {
        find_from(files, key, i + 1)
    }
}

pub proof fn lemma_find_from_bounds(files: Seq<FileInfo>, key: Seq<char>, i: int)
    requires
        0 <= i,
    ensures
        find_from(files, key, i) == -1 || (i <= find_from(files, key, i) < files.len()
            && files[find_from(files, key, i)].inode_hex@ == key),
    decreases files.len() - i,
{
    if i < files.len() && files[i].inode_hex@ != key {
        lemma_find_from_bounds(files, key, i + 1);
    }
}

/// `find_from` misses only when no file from `i` on has the inode.
pub proof fn lemma_find_from_complete(files: Seq<FileInfo>, key: Seq<char>, i: int, j: int)
    requires
        0 <= i <= j < files.len(),
        files[j].inode_hex@ == key,
    ensures
        i <= find_from(files, key, i) <= j,
        files[find_from(files, key, i)].inode_hex@ == key,
    decreases j - i,
{
    if files[i].inode_hex@ != key {
        lemma_find_from_complete(files, key, i + 1, j);
    }
}

impl FileList {
    /// The listing of `path`, holding the files collected under it.
    pub fn list(path: &str, files: Vec<FileInfo>) -> (l: FileList)
        ensures
            l.name@ == path@,
            l.files@ == files@,
    {
        FileList { name: String::from_str(path), files }
    }

    /// The first file with the given inode.
    pub fn find(&self, inode: &str) -> (r: Option<&FileInfo>)
        ensures
            match r {
                Some(f) => find_from(self.files@, inode@, 0) >= 0 && *f == self.files@[find_from(
                    self.files@,
                    inode@,
                    0,
                )],
                None => find_from(self.files@, inode@, 0) == -1,
            },
    {
        let key = String::from_str(inode);
        let mut i: usize = 0;
        while i < self.files.len()
            invariant
                i <= self.files@.len(),
                key@ == inode@,
                find_from(self.files@, inode@, 0) == find_from(self.files@, inode@, i as int),
            decreases self.files.len() - i,
        {
            if self.files[i].inode_hex == key {
                return Some(&self.files[i]);
            }
            i = i + 1;
        }
        None
    }

    /// The listing: one line per file, separated by newlines.
    pub fn to_string(&self) -> (r: String)
        ensures
            r@ == join_lines(self.files@),
    {
        let mut out: Vec<char> = Vec::new();
        let mut i: usize = 0;
        while i < self.files.len()
            invariant
                i <= self.files@.len(),
                out@ == join_lines(self.files@.subrange(0, i as int)),
            decreases self.files.len() - i,
        {
            if i > 0 {
                out.push('\n');
            }
            let line = self.files[i].to_string();
            push_str(&mut out, line.as_str());
            proof {
                let s = self.files@.subrange(0, i + 1);
                assert(s.drop_last() =~= self.files@.subrange(0, i as int));
                assert(s.last() == self.files@[i as int]);
                if i == 0 {
                    assert(out@ =~= join_lines(s));
                }
            }
            i = i + 1;
        }
        assert(self.files@.subrange(0, self.files@.len() as int) =~= self.files@);
        string_of(&out, 0, out.len())
    }
}

/// The listings of every path given, and whether each listing is headed by
/// its path.
pub struct Directories {
    pub dirs: Vec<FileList>,
    pub show_paths: bool,
}

/// The text of the listings, in order, separated by newlines, each headed by
/// `# Path: <name>` when paths are shown.
pub open spec fn directories_text(dirs: Seq<FileList>, show_paths: bool) -> Seq<char>
    decreases dirs.len(),
{
    if dirs.len() == 0 {
        Seq::empty()
    } else {
        let d = dirs.last();
        let head = if show_paths {
            seq!['#', ' ', 'P', 'a', 't', 'h', ':', ' '] + d.name@ + seq!['\n']
        } else {
            Seq::empty()
        };
        let sep = if dirs.len() > 1 {
            seq!['\n']
        } else {
            Seq::empty()
        };
        directories_text(dirs.drop_last(), show_paths) + sep + head + join_lines(d.files@)
    }
}


impl Directories {
    /// The listings to show, headed by their paths when `show_paths` holds.
    pub fn list(dirs: Vec<FileList>, show_paths: bool) -> (d: Directories)
        ensures
            d.dirs@ == dirs@,
            d.show_paths == show_paths,
    {
        Directories { dirs, show_paths }
    }

    /// The text of all listings.
    pub fn to_string(&self) -> (r: String)
        ensures
            r@ == directories_text(self.dirs@, self.show_paths),
    {
        let mut out: Vec<char> = Vec::new();
        let mut i: usize = 0;
        while i < self.dirs.len()
            invariant
                i <= self.dirs@.len(),
                out@ == directories_text(self.dirs@.subrange(0, i as int), self.show_paths),
            decreases self.dirs.len() - i,
        {
            if i > 0 {
                out.push('\n');
            }
            if self.show_paths {
                push_str(&mut out, "# Path: ");
                proof {
                    reveal_strlit("# Path: ");
                }
                push_str(&mut out, self.dirs[i].name.as_str());
                out.push('\n');
            }
            let text = self.dirs[i].to_string();
            push_str(&mut out, text.as_str());
            proof {
                let s = self.dirs@.subrange(0, i + 1);
                assert(s.drop_last() =~= self.dirs@.subrange(0, i as int));
                assert(s.last() == self.dirs@[i as int]);
                assert(out@ =~= directories_text(s, self.show_paths));
            }
            i = i + 1;
        }
        assert(self.dirs@.subrange(0, self.dirs@.len() as int) =~= self.dirs@);
        string_of(&out, 0, out.len())
    }
}


// ---------------------------------------------------------------------------
// The lines of printed listings
// ---------------------------------------------------------------------------

/// A line of `a` that does not end in `'\r'` stays a line when a newline follows.
proof fn lemma_line_kept_by_newline(a: Seq<char>, x: Seq<char>)
    requires
        text_lines(a).contains(x),
        strip_cr(x) == x,
    ensures
        text_lines(a + seq!['\n']).contains(x),
{
    lemma_text_lines_newline_end(a);
    let i = choose|i: int| 0 <= i < text_lines(a).len() && text_lines(a)[i] == x;
    assert(text_lines(a + seq!['\n'])[i] == x);
}

/// A line of the text after a newline is a line of the whole text.
proof fn lemma_line_after_newline(p: Seq<char>, r: Seq<char>, x: Seq<char>)
    requires
        text_lines(r).contains(x),
    ensures
        text_lines(p + (seq!['\n'] + r)).contains(x),
{
    lemma_text_lines_split(p, r);
    let i = choose|i: int| 0 <= i < text_lines(r).len() && text_lines(r)[i] == x;
    let n = text_lines(p + seq!['\n']).len() as int;
    assert(text_lines(p + (seq!['\n'] + r))[n + i] == x);
}

proof fn lemma_join_lines_holds(files: Seq<FileInfo>, j: int)
    requires
        0 <= j < files.len(),
        no_newline(files[j].line_text()),
        strip_cr(files[j].line_text()) == files[j].line_text(),
    ensures
        text_lines(join_lines(files)).contains(files[j].line_text()),
    decreases files.len(),
{
    let x = files[j].line_text();
    let n = files.len() as int;
    assert(x.len() > 0) by {
        assert(x == files[j].inode_hex@ + (seq![' '] + (mode_text(files[j].mode) + (seq![' ']
            + files[j].text_after_mode()))));
    }
    if n == 1 {
        lemma_text_lines_single(x);
        assert(seq![x][0] == x);
    } else {
        let init = files.drop_last();
        let last = files.last().line_text();
        assert(join_lines(files) == join_lines(init) + seq!['\n'] + last);
        assert(join_lines(files) =~= join_lines(init) + (seq!['\n'] + last));
        if j < n - 1 {
            assert(init[j] == files[j]);
            lemma_join_lines_holds(init, j);
            lemma_line_kept_by_newline(join_lines(init), x);
            lemma_text_lines_split(join_lines(init), last);
            let i = choose|i: int|
                0 <= i < text_lines(join_lines(init) + seq!['\n']).len() && text_lines(
                    join_lines(init) + seq!['\n'],
                )[i] == x;
            assert(text_lines(join_lines(files))[i] == x);
        } else {
            lemma_text_lines_single(x);
            assert(seq![x][0] == x);
            lemma_line_after_newline(join_lines(init), last, x);
        }
    }
}

/// A line of `a` that does not end in `'\r'` stays a line when a newline
/// and more text follow.
proof fn lemma_line_before_newline(a: Seq<char>, r: Seq<char>, x: Seq<char>)
    requires
        text_lines(a).contains(x),
        strip_cr(x) == x,
    ensures
        text_lines(a + (seq!['\n'] + r)).contains(x),
{
    lemma_line_kept_by_newline(a, x);
    lemma_text_lines_split(a, r);
    let i = choose|i: int| 0 <= i < text_lines(a + seq!['\n']).len() && text_lines(a + seq!['\n'])[i] == x;
    assert(text_lines(a + (seq!['\n'] + r))[i] == x);
}

/// The text of one listing: its heading when paths are shown, then its lines.
spec fn listing_block(l: FileList, show_paths: bool) -> Seq<char> {
    (if show_paths {
        seq!['#', ' ', 'P', 'a', 't', 'h', ':', ' '] + l.name@ + seq!['\n']
    } else {
        Seq::empty()
    }) + join_lines(l.files@)
}

proof fn lemma_directories_text_shape(dirs: Seq<FileList>, show_paths: bool)
    requires
        dirs.len() >= 1,
    ensures
        directories_text(dirs, show_paths) == if dirs.len() > 1 {
            directories_text(dirs.drop_last(), show_paths) + (seq!['\n'] + listing_block(dirs.last(), show_paths))
        } else {
            listing_block(dirs.last(), show_paths)
        },
{
    if dirs.len() == 1 {
        assert(directories_text(dirs.drop_last(), show_paths) == Seq::<char>::empty());
        assert(directories_text(dirs, show_paths) =~= listing_block(dirs.last(), show_paths));
    } else {
        assert(directories_text(dirs, show_paths) =~= directories_text(dirs.drop_last(), show_paths) + (
        seq!['\n'] + listing_block(dirs.last(), show_paths)));
    }
}

proof fn lemma_listing_block_holds(l: FileList, show_paths: bool, j: int)
    requires
        0 <= j < l.files@.len(),
        no_newline(l.files@[j].line_text()),
        strip_cr(l.files@[j].line_text()) == l.files@[j].line_text(),
    ensures
        text_lines(listing_block(l, show_paths)).contains(l.files@[j].line_text()),
{
    let x = l.files@[j].line_text();
    lemma_join_lines_holds(l.files@, j);
    if show_paths {
        let h = seq!['#', ' ', 'P', 'a', 't', 'h', ':', ' '] + l.name@;
        assert(listing_block(l, show_paths) =~= h + (seq!['\n'] + join_lines(l.files@)));
        lemma_line_after_newline(h, join_lines(l.files@), x);
    } else {
        assert(listing_block(l, show_paths) =~= join_lines(l.files@));
    }
}

/// Printed listings, split into lines (as `str::lines` splits them), hold
/// the line of every listed file as a line of its own, whether or not the
/// listings are headed by their paths (for a file whose line holds no newline
/// and does not end in a carriage return).
pub proof fn lemma_directories_text_lines(dirs: Seq<FileList>, show_paths: bool, d: int, j: int)
    requires
        0 <= d < dirs.len(),
        0 <= j < dirs[d].files@.len(),
        no_newline(dirs[d].files@[j].line_text()),
        strip_cr(dirs[d].files@[j].line_text()) == dirs[d].files@[j].line_text(),
    ensures
        text_lines(directories_text(dirs, show_paths)).contains(dirs[d].files@[j].line_text()),
    decreases dirs.len(),
{
    let x = dirs[d].files@[j].line_text();
    let n = dirs.len() as int;
    let init = dirs.drop_last();
    lemma_directories_text_shape(dirs, show_paths);
    if d < n - 1 {
        assert(init[d] == dirs[d]);
        lemma_directories_text_lines(init, show_paths, d, j);
        lemma_line_before_newline(directories_text(init, show_paths), listing_block(dirs.last(), show_paths), x);
    } else {
        assert(dirs.last() == dirs[d]);
        lemma_listing_block_holds(dirs.last(), show_paths, j);
        if n > 1 {
            lemma_line_after_newline(directories_text(init, show_paths), listing_block(dirs.last(), show_paths), x);
        }
    }
}
} // verus!
