//! One group of save files and the way it will be converted.
//!
//! A group gathers the files that belong to one game save: the packed `srm`
//! file and the unpacked battery and controller-pack files. Which slot a file
//! fills is read off its path's extension ([`tag_path`]); picking a battery
//! file clears the other battery slots, and picking the combined controller
//! pack clears the per-player packs (and the other way round). The group is
//! either created from its parts or split into them ([`Way`]).
//!
//! Paths are handled as strings; their specification reads the UTF-8 bytes
//! of the string ([`vstd::utf8::encode_utf8`] of its view).

use vstd::prelude::*;
use vstd::utf8::encode_utf8;

verus! {

/// Byte value of `/`.
pub open spec fn sep_slash() -> u8 {
    47
}

/// Byte value of `\`.
pub open spec fn sep_backslash() -> u8 {
    92
}

/// Byte value of `.`.
pub open spec fn dot() -> u8 {
    46
}

/// The byte is a path separator.
pub open spec fn is_sep(b: u8) -> bool {
    b == sep_slash() || b == sep_backslash()
}

/// Where the file name starts: one past the last separator, or zero.
pub open spec fn name_start(b: Seq<u8>) -> int
    decreases b.len(),
{
    if b.len() == 0 {
        0
    } else if is_sep(b.last()) {
        b.len() as int
    } else {
        name_start(b.drop_last())
    }
}

/// The position of the dot that separates stem and extension: the last dot
/// strictly after the first byte of the file name, or -1 if there is none.
/// A name that starts with its only dot has no extension.
pub open spec fn ext_dot(b: Seq<u8>) -> int
    decreases b.len(),
{
    if b.len() == 0 {
        -1
    } else if is_sep(b.last()) {
        -1
    } else if b.last() == dot() && b.len() - 1 > name_start(b) {
        b.len() - 1
    } else {
        ext_dot(b.drop_last())
    }
}

/// The file name's stem: the name up to the extension dot, or the whole name.
pub open spec fn stem_of(b: Seq<u8>) -> Seq<u8> {
    if ext_dot(b) >= 0 {
        b.subrange(name_start(b), ext_dot(b))
    } else {
        b.subrange(name_start(b), b.len() as int)
    }
}

/// The file name's extension: what follows the extension dot, if any.
pub open spec fn ext_of(b: Seq<u8>) -> Option<Seq<u8>> {
    if ext_dot(b) >= 0 {
        Some(b.subrange(ext_dot(b) + 1, b.len() as int))
    } else {
        None
    }
}

/// The bounds of the two positions: the name starts within the sequence, and
/// the extension dot, when present, lies between name start and end.
pub proof fn lemma_name_positions(b: Seq<u8>)
    ensures
        0 <= name_start(b) <= b.len(),
        ext_dot(b) >= 0 ==> name_start(b) < ext_dot(b) < b.len(),
    decreases b.len(),
{
    if b.len() > 0 {
        lemma_name_positions(b.drop_last());
        if !is_sep(b.last()) {
            assert(name_start(b) == name_start(b.drop_last()));
        }
    }
}

/// Finds the file-name start and the extension dot in one pass.
fn split_positions(b: &[u8]) -> (r: (usize, Option<usize>))
    ensures
        r.0 as int == name_start(b@),
        match r.1 {
            Some(d) => ext_dot(b@) == d as int,
            None => ext_dot(b@) == -1,
        },
{
    let n = b.len();
    let mut cs: usize = 0;
    let mut dot_pos: Option<usize> = None;
    let mut i: usize = 0;
    while i < n
        invariant
            i <= n,
            n == b@.len(),
            cs as int == name_start(b@.take(i as int)),
            match dot_pos {
                Some(d) => ext_dot(b@.take(i as int)) == d as int,
                None => ext_dot(b@.take(i as int)) == -1,
            },
        decreases n - i,
    {
        let c = b[i];
        proof {
            assert(b@.take(i as int + 1).drop_last() =~= b@.take(i as int));
            assert(b@.take(i as int + 1).last() == c);
        }
        if c == '/' as u8 || c == '\\' as u8 {
            cs = i + 1;
            dot_pos = None;
        } else if c == '.' as u8 && i > cs {
            dot_pos = Some(i);
        }
        i = i + 1;
    }
    proof {
        assert(b@.take(n as int) =~= b@);
    }
    (cs, dot_pos)
}

/// The stem of the path's file name (the name without its extension), as
/// UTF-8 bytes. This is the key under which save files are grouped.
pub fn file_stem_of(path: &str) -> (r: Vec<u8>)
    ensures
        r@ == stem_of(encode_utf8(path@)),
{
    let b = path.as_bytes();
    let (cs, dot_pos) = split_positions(b);
    proof {
        lemma_name_positions(b@);
    }
    let end = match dot_pos {
        Some(d) => d,
        None => b.len(),
    };
    let mut out: Vec<u8> = Vec::new();
    let mut i: usize = cs;
    proof {
        assert(out@ =~= b@.subrange(cs as int, cs as int));
    }
    while i < end
        invariant
            cs <= i <= end,
            end <= b@.len(),
            out@ == b@.subrange(cs as int, i as int),
        decreases end - i,
    {
        out.push(b[i]);
        proof {
            assert(out@ =~= b@.subrange(cs as int, i as int + 1));
        }
        i = i + 1;
    }
    out
}

/// Uppercases an ASCII letter byte; leaves every other byte alone.
pub open spec fn upper(c: u8) -> u8 {
    if 'a' as u8 <= c && c <= 'z' as u8 {
        (c - 32) as u8
    } else {
        c
    }
}

/// The byte sequence with every ASCII letter uppercased.
pub open spec fn upper_bytes(s: Seq<u8>) -> Seq<u8> {
    s.map_values(|c: u8| upper(c))
}

/// The slot a save file fills, read off its file extension.
#[derive(Clone, Copy, Debug, PartialEq, Eq, Structural)]
pub enum Tag {
    Srm,
    Eep,
    Sra,
    Fla,
    Mpk,
    Mpk1,
    Mpk2,
    Mpk3,
    Mpk4,
}

/// The byte length of a single controller pack file: a `.mpk` file of exactly
/// this size is taken to be player 1's pack rather than a combined pack.
pub open spec fn controller_pack_len() -> u64 {
    0x8000
}

/// The slot for a path with the given UTF-8 bytes, matching its extension
/// case-insensitively; `file_len` is the file's size on disk, if known, and
/// only tells a single controller pack apart from a combined one.
pub open spec fn tag_of(b: Seq<u8>, file_len: Option<u64>) -> Option<Tag> {
    match ext_of(b) {
        Option::None => Option::None,
        Option::Some(e) => {
            let u = upper_bytes(e);
            if u == seq!['S' as u8, 'R' as u8, 'M' as u8] {
                Some(Tag::Srm)
            } else if u == seq!['E' as u8, 'E' as u8, 'P' as u8] {
                Some(Tag::Eep)
            } else if u == seq!['S' as u8, 'R' as u8, 'A' as u8] {
                Some(Tag::Sra)
            } else if u == seq!['F' as u8, 'L' as u8, 'A' as u8] {
                Some(Tag::Fla)
            } else if u == seq!['M' as u8, 'P' as u8, 'K' as u8] {
                if file_len == Some(controller_pack_len()) {
                    Some(Tag::Mpk1)
                } else {
                    Some(Tag::Mpk)
                }
            } else if u == seq!['M' as u8, 'P' as u8, 'K' as u8, '1' as u8] {
                Some(Tag::Mpk1)
            } else if u == seq!['M' as u8, 'P' as u8, 'K' as u8, '2' as u8] {
                Some(Tag::Mpk2)
            } else if u == seq!['M' as u8, 'P' as u8, 'K' as u8, '3' as u8] {
                Some(Tag::Mpk3)
            } else if u == seq!['M' as u8, 'P' as u8, 'K' as u8, '4' as u8] {
                Some(Tag::Mpk4)
            } else {
                Option::None
            }
        },
    }
}

/// True iff the byte vector holds exactly the three given bytes.
fn is_bytes3(v: &Vec<u8>, a: u8, b: u8, c: u8) -> (r: bool)
    ensures
        r == (v@ == seq![a, b, c]),
{
    let r = v.len() == 3 && v[0] == a && v[1] == b && v[2] == c;
    proof {
        if r {
            assert(v@ =~= seq![a, b, c]);
        }
    }
    r
}

/// True iff the byte vector holds exactly the four given bytes.
fn is_bytes4(v: &Vec<u8>, a: u8, b: u8, c: u8, d: u8) -> (r: bool)
    ensures
        r == (v@ == seq![a, b, c, d]),
{
    let r = v.len() == 4 && v[0] == a && v[1] == b && v[2] == c && v[3] == d;
    proof {
        if r {
            assert(v@ =~= seq![a, b, c, d]);
        }
    }
    r
}

/// The slot for the file at `path`, decided by its extension; `file_len` is
/// the file's size on disk, if known.
pub fn tag_path(path: &str, file_len: Option<u64>) -> (r: Option<Tag>)
    ensures
        r == tag_of(encode_utf8(path@), file_len),
{
    let b = path.as_bytes();
    let (_, dot_pos) = split_positions(b);
    let d = match dot_pos {
        Some(d) => d,
        None => {
            return None;
        },
    };
    proof {
        lemma_name_positions(b@);
    }
    let n = b.len();
    let mut u: Vec<u8> = Vec::new();
    let mut i: usize = d + 1;
    proof {
        assert(u@ =~= upper_bytes(b@.subrange(d as int + 1, d as int + 1)));
    }
    while i < n
        invariant
            d < i <= n,
            n == b@.len(),
            u@ == upper_bytes(b@.subrange(d as int + 1, i as int)),
        decreases n - i,
    {
        let c = b[i];
        let up = if 'a' as u8 <= c && c <= 'z' as u8 {
            c - 32
        } else {
            c
        };
        u.push(up);
        proof {
            assert(u@ =~= upper_bytes(b@.subrange(d as int + 1, i as int + 1)));
        }
        i = i + 1;
    }
    proof {
        assert(b@.subrange(d as int + 1, n as int) == ext_of(b@)->Some_0);
    }
    if is_bytes3(&u, 'S' as u8, 'R' as u8, 'M' as u8) {
        Some(Tag::Srm)
    } else if is_bytes3(&u, 'E' as u8, 'E' as u8, 'P' as u8) {
        Some(Tag::Eep)
    } else if is_bytes3(&u, 'S' as u8, 'R' as u8, 'A' as u8) {
        Some(Tag::Sra)
    } else if is_bytes3(&u, 'F' as u8, 'L' as u8, 'A' as u8) {
        Some(Tag::Fla)
    } else if is_bytes3(&u, 'M' as u8, 'P' as u8, 'K' as u8) {
        let pack = match file_len {
            Some(l) => l == 0x8000,
            None => false,
        };
        if pack {
            Some(Tag::Mpk1)
        } else {
            Some(Tag::Mpk)
        }
    } else if is_bytes4(&u, 'M' as u8, 'P' as u8, 'K' as u8, '1' as u8) {
        Some(Tag::Mpk1)
    } else if is_bytes4(&u, 'M' as u8, 'P' as u8, 'K' as u8, '2' as u8) {
        Some(Tag::Mpk2)
    } else if is_bytes4(&u, 'M' as u8, 'P' as u8, 'K' as u8, '3' as u8) {
        Some(Tag::Mpk3)
    } else if is_bytes4(&u, 'M' as u8, 'P' as u8, 'K' as u8, '4' as u8) {
        Some(Tag::Mpk4)
    } else {
        None
    }
}

/// True iff a file at `path` can be added at all: its extension names one of
/// the save-file slots. The file's size plays no part here.
pub fn check_can_add_file(path: &str) -> (r: bool)
    ensures
        r == (tag_of(encode_utf8(path@), None) is Some),
{
    tag_path(path, None).is_some()
}

/// Whether a group is created from its parts or split into them.
#[derive(Clone, Copy, Debug, PartialEq, Eq, Structural)]
pub enum Way {
    Create,
    Split,
}

/// The save-file paths of one group, one optional path per slot.
#[derive(Debug)]
pub struct Paths {
    pub srm: Option<String>,
    pub eep: Option<String>,
    pub sra: Option<String>,
    pub fla: Option<String>,
    pub mpk: Option<String>,
    pub mpk1: Option<String>,
    pub mpk2: Option<String>,
    pub mpk3: Option<String>,
    pub mpk4: Option<String>,
}

/// `p` with the slot for `tag` set to `path`. Setting a battery file (EEP,
/// SRA or FLA) clears the other two battery slots; setting the combined
/// controller pack clears the per-player packs, and a per-player pack clears
/// the combined one.
pub open spec fn paths_with(p: Paths, tag: Tag, path: String) -> Paths {
    match tag {
        Tag::Srm => Paths { srm: Some(path), ..p },
        Tag::Eep => Paths { eep: Some(path), sra: None, fla: None, ..p },
        Tag::Sra => Paths { sra: Some(path), eep: None, fla: None, ..p },
        Tag::Fla => Paths { fla: Some(path), eep: None, sra: None, ..p },
        Tag::Mpk => Paths {
            mpk: Some(path),
            mpk1: None,
            mpk2: None,
            mpk3: None,
            mpk4: None,
            ..p
        },
        Tag::Mpk1 => Paths { mpk1: Some(path), mpk: None, ..p },
        Tag::Mpk2 => Paths { mpk2: Some(path), mpk: None, ..p },
        Tag::Mpk3 => Paths { mpk3: Some(path), mpk: None, ..p },
        Tag::Mpk4 => Paths { mpk4: Some(path), mpk: None, ..p },
    }
}

/// `p` after filing `path` under the slot its extension names: `paths_with`
/// for the tag of the path, or `p` unchanged when the extension names none.
pub open spec fn paths_set(p: Paths, path: String, file_len: Option<u64>) -> Paths {
    match tag_of(encode_utf8(path@), file_len) {
        Some(tag) => paths_with(p, tag, path),
        None => p,
    }
}

/// Some unpacked input (battery or controller pack) is present.
pub open spec fn any_input_set(p: Paths) -> bool {
    ||| p.eep is Some
    ||| p.sra is Some
    ||| p.fla is Some
    ||| p.mpk is Some
    ||| p.mpk1 is Some
    ||| p.mpk2 is Some
    ||| p.mpk3 is Some
    ||| p.mpk4 is Some
}

impl Paths {
    /// Files `path` under the slot its extension names; a path whose
    /// extension names no slot is ignored. `file_len` is the file's size on
    /// disk, if known (it only tells a single controller pack apart from a
    /// combined one).
    pub fn set(&mut self, path: String, file_len: Option<u64>)
        ensures
            *final(self) == paths_set(*old(self), path, file_len),
    {
        let tag = tag_path(path.as_str(), file_len);
        match tag {
            Some(Tag::Srm) => self.srm = Some(path),
            Some(Tag::Eep) => {
                self.sra = None;
                self.fla = None;
                self.eep = Some(path)
            },
            Some(Tag::Sra) => {
                self.eep = None;
                self.fla = None;
                self.sra = Some(path)
            },
            Some(Tag::Fla) => {
                self.eep = None;
                self.sra = None;
                self.fla = Some(path)
            },
            Some(Tag::Mpk) => {
                self.mpk1 = None;
                self.mpk2 = None;
                self.mpk3 = None;
                self.mpk4 = None;
                self.mpk = Some(path)
            },
            Some(Tag::Mpk1) => {
                self.mpk = None;
                self.mpk1 = Some(path)
            },
            Some(Tag::Mpk2) => {
                self.mpk = None;
                self.mpk2 = Some(path)
            },
            Some(Tag::Mpk3) => {
                self.mpk = None;
                self.mpk3 = Some(path)
            },
            Some(Tag::Mpk4) => {
                self.mpk = None;
                self.mpk4 = Some(path)
            },
            None => {},
        }
    }
}

/// The path collection with no path in any slot.
pub open spec fn empty_paths() -> Paths {
    Paths {
        srm: None::<String>,
        eep: None::<String>,
        sra: None::<String>,
        fla: None::<String>,
        mpk: None::<String>,
        mpk1: None::<String>,
        mpk2: None::<String>,
        mpk3: None::<String>,
        mpk4: None::<String>,
    }
}

impl Default for Paths {
    /// No path in any slot.
    fn default() -> (r: Self)
        ensures
            r == empty_paths(),
    {
        Paths {
            srm: None,
            eep: None,
            sra: None,
            fla: None,
            mpk: None,
            mpk1: None,
            mpk2: None,
            mpk3: None,
            mpk4: None,
        }
    }
}

/// One group of save files and the way it will be converted.
#[derive(Debug)]
pub struct GroupItem {
    pub way: Way,
    pub paths: Paths,
}

/// A group is ready for conversion: to create a packed file some unpacked
/// input must be present; to split one, the packed file itself must be.
pub open spec fn item_valid(g: GroupItem) -> bool {
    match g.way {
        Way::Create => any_input_set(g.paths),
        Way::Split => g.paths.srm is Some,
    }
}

impl GroupItem {
    /// A group that will pack its inputs into a new file.
    pub fn create(paths: Paths) -> (r: Self)
        ensures
            r == (GroupItem { way: Way::Create, paths }),
    {
        Self { way: Way::Create, paths }
    }

    /// A group that will split a packed file into its parts.
    pub fn split(paths: Paths) -> (r: Self)
        ensures
            r == (GroupItem { way: Way::Split, paths }),
    {
        Self { way: Way::Split, paths }
    }

    /// The group for a single file: a packed file starts a split group, any
    /// other file starts a create group, with the file filed under its slot.
    pub fn from(path: String, file_len: Option<u64>) -> (r: Self)
        ensures
            r.way == (if tag_of(encode_utf8(path@), file_len) == Some(Tag::Srm) {
                Way::Split
            } else {
                Way::Create
            }),
            r.paths == paths_set(empty_paths(), path, file_len),
    {
        let way = match tag_path(path.as_str(), file_len) {
            Some(Tag::Srm) => Way::Split,
            _ => Way::Create,
        };
        let mut paths = Paths::default();
        paths.set(path, file_len);
        Self { way, paths }
    }

    /// True iff the group is ready for conversion.
    pub fn is_valid(&self) -> (r: bool)
        ensures
            r == item_valid(*self),
    {
        match self.way {
            Way::Create => {
                self.paths.eep.is_some() || self.paths.sra.is_some() || self.paths.fla.is_some()
                    || self.paths.mpk.is_some() || self.paths.mpk1.is_some()
                    || self.paths.mpk2.is_some() || self.paths.mpk3.is_some()
                    || self.paths.mpk4.is_some()
            },
            Way::Split => self.paths.srm.is_some(),
        }
    }

    /// Files `path` under its slot, leaving the conversion way alone.
    pub fn set(&mut self, path: String, file_len: Option<u64>)
        ensures
            final(self).way == old(self).way,
            final(self).paths == paths_set(old(self).paths, path, file_len),
    {
        self.paths.set(path, file_len)
    }

    /// Whether the user may pick a file for this slot: everything but the
    /// packed file when creating, only the packed file when splitting.
    pub fn is_enabled(&self, tag: Tag) -> (r: bool)
        ensures
            r == (match self.way {
                Way::Create => tag != Tag::Srm,
                Way::Split => tag == Tag::Srm,
            }),
    {
        match self.way {
            Way::Create => !matches!(tag, Tag::Srm),
            Way::Split => matches!(tag, Tag::Srm),
        }
    }

    /// Whether this slot looks right for the chosen way: when creating, the
    /// input slots ask for at least one input; when splitting, the packed
    /// slot asks for its file.
    pub fn is_valid_for(&self, tag: Tag) -> (r: bool)
        ensures
            r == (match self.way {
                Way::Create => tag == Tag::Srm || any_input_set(self.paths),
                Way::Split => tag != Tag::Srm || self.paths.srm is Some,
            }),
    {
        match self.way {
            Way::Create => matches!(tag, Tag::Srm) || self.is_valid(),
            Way::Split => !matches!(tag, Tag::Srm) || self.paths.srm.is_some(),
        }
    }
}

} // verus!
