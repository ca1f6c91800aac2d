//! The collection of save-file groups the user is putting together.
//!
//! Groups are keyed by the stem of their files' names (the same game's save
//! files share it) and kept sorted by key, so the rows the user sees have a
//! stable order. A [`crate::selection::SelectionRange`] over row indices
//! tracks which rows are selected. Conversion itself is I/O and happens
//! outside this crate; [`FileGroups::take_all`] and [`FileGroups::put_back`]
//! hand the groups out for it and take the failed ones back.

use vstd::prelude::*;
use vstd::utf8::encode_utf8;

use crate::group_item::empty_paths;
use crate::group_item::file_stem_of;
use crate::group_item::item_valid;
use crate::group_item::paths_set;
use crate::group_item::stem_of;
use crate::group_item::tag_of;
use crate::group_item::GroupItem;
use crate::group_item::Tag;
use crate::group_item::Way;
use crate::selection::covers;
use crate::selection::SelectionRange;

verus! {

/// One named group of save files: the name is the files' common stem, as
/// UTF-8 bytes.
#[derive(Debug)]
pub struct Group {
    pub name: Vec<u8>,
    pub item: GroupItem,
}

/// Strict lexicographic byte order: the order in which groups are kept.
pub open spec fn lex_lt(a: Seq<u8>, b: Seq<u8>) -> bool
    decreases a.len(),
{
    if b.len() == 0 {
        false
    } else if a.len() == 0 {
        true
    } else if a[0] < b[0] {
        true
    } else if a[0] > b[0] {
        false
    } else {
        lex_lt(a.skip(1), b.skip(1))
    }
}

/// Nothing is lexicographically below itself.
pub proof fn lemma_lex_irreflexive(a: Seq<u8>)
    ensures
        !lex_lt(a, a),
    decreases a.len(),
{
    if a.len() > 0 {
        lemma_lex_irreflexive(a.skip(1));
    }
}

/// Two byte sequences are ordered one way or the other, or are equal.
pub proof fn lemma_lex_total(a: Seq<u8>, b: Seq<u8>)
    ensures
        lex_lt(a, b) || lex_lt(b, a) || a == b,
    decreases a.len(),
{
    if a.len() > 0 && b.len() > 0 && a[0] == b[0] {
        lemma_lex_total(a.skip(1), b.skip(1));
        if a.skip(1) == b.skip(1) {
            assert forall|i: int| 0 <= i < a.len() implies a[i] == b[i] by {
                if i >= 1 {
                    assert(a.skip(1)[i - 1] == a[i]);
                    assert(b.skip(1)[i - 1] == b[i]);
                }
            }
            assert(a =~= b);
        }
    } else if a.len() == 0 && b.len() == 0 {
        assert(a =~= b);
    }
}

/// Lexicographic order is transitive.
pub proof fn lemma_lex_transitive(a: Seq<u8>, b: Seq<u8>, c: Seq<u8>)
    requires
        lex_lt(a, b),
        lex_lt(b, c),
    ensures
        lex_lt(a, c),
    decreases a.len(),
{
    if a.len() > 0 && b.len() > 0 && c.len() > 0 && a[0] == b[0] && b[0] == c[0] {
        lemma_lex_transitive(a.skip(1), b.skip(1), c.skip(1));
    }
}

/// The group names are strictly increasing, so every name occurs once.
pub open spec fn groups_sorted(gs: Seq<Group>) -> bool {
    forall|i: int, j: int| 0 <= i < j < gs.len() ==> lex_lt(gs[i].name@, gs[j].name@)
}

/// Lexicographic comparison of two byte vectors.
fn lex_less(a: &Vec<u8>, b: &Vec<u8>) -> (r: bool)
    ensures
        r == lex_lt(a@, b@),
{
    let an = a.len();
    let bn = b.len();
    let n = if an < bn {
        an
    } else {
        bn
    };
    let mut i: usize = 0;
    proof {
        assert(a@.skip(0) =~= a@);
        assert(b@.skip(0) =~= b@);
    }
    while i < n
        invariant
            i <= n,
            an == a@.len(),
            bn == b@.len(),
            n <= an,
            n <= bn,
            lex_lt(a@, b@) == lex_lt(a@.skip(i as int), b@.skip(i as int)),
        decreases n - i,
    {
        let ca = a[i];
        let cb = b[i];
        proof {
            assert(a@.skip(i as int)[0] == a@[i as int]);
            assert(b@.skip(i as int)[0] == b@[i as int]);
        }
        if ca < cb {
            return true;
        }
        if ca > cb {
            return false;
        }
        proof {
            assert(a@.skip(i as int).skip(1) =~= a@.skip(i as int + 1));
            assert(b@.skip(i as int).skip(1) =~= b@.skip(i as int + 1));
        }
        i = i + 1;
    }
    proof {
        if an <= bn {
            assert(a@.skip(n as int).len() == 0);
        }
        if bn <= an {
            assert(b@.skip(n as int).len() == 0);
        }
    }
    an < bn
}

/// Byte vector equality.
fn eq_bytes(a: &Vec<u8>, b: &Vec<u8>) -> (r: bool)
    ensures
        r == (a@ == b@),
{
    let n = a.len();
    if n != b.len() {
        return false;
    }
    let mut i: usize = 0;
    while i < n
        invariant
            i <= n,
            n == a@.len(),
            n == b@.len(),
            forall|k: int| 0 <= k < i ==> a@[k] == b@[k],
        decreases n - i,
    {
        if a[i] != b[i] {
            return false;
        }
        i = i + 1;
    }
    proof {
        assert(a@ =~= b@);
    }
    true
}

/// The save-file groups on display, sorted by name, with the selected rows.
#[derive(Debug)]
pub struct FileGroups {
    groups: Vec<Group>,
    selection: Option<SelectionRange>,
}

impl FileGroups {
    /// The groups, in display order.
    pub closed spec fn rows(&self) -> Seq<Group> {
        self.groups@
    }

    /// The selected row indices, if any row was ever selected.
    pub closed spec fn sel(&self) -> Option<SelectionRange> {
        self.selection
    }

    /// Well-formedness: names sorted and the selection canonical.
    pub open spec fn inv(&self) -> bool {
        &&& groups_sorted(self.rows())
        &&& match self.sel() {
            Some(s) => s.inv(),
            None => true,
        }
    }

    /// True iff there are no groups.
    pub fn is_empty(&self) -> (r: bool)
        ensures
            r == (self.rows().len() == 0),
    {
        self.groups.len() == 0
    }

    /// The number of groups.
    pub fn len(&self) -> (r: usize)
        ensures
            r == self.rows().len(),
    {
        self.groups.len()
    }

    /// The group at row `i`.
    pub fn get(&self, i: usize) -> (r: &Group)
        requires
            i < self.rows().len(),
        ensures
            *r == self.rows()[i as int],
    {
        &self.groups[i]
    }

    /// True iff at least one row is selected.
    pub fn has_selection(&self) -> (r: bool)
        ensures
            r == match self.sel() {
                Some(s) => s@.len() != 0,
                None => false,
            },
    {
        match &self.selection {
            Some(s) => !s.is_empty(),
            None => false,
        }
    }

    /// Drops every group and the selection.
    pub fn clear(&mut self)
        ensures
            final(self).rows().len() == 0,
            final(self).sel() is None,
            final(self).inv(),
    {
        self.groups.clear();
        self.selection = None;
    }

    /// Selects every row.
    pub fn select_all(&mut self)
        requires
            old(self).inv(),
        ensures
            final(self).inv(),
            final(self).rows() == old(self).rows(),
            match final(self).sel() {
                Some(s) => if old(self).rows().len() == 0 {
                    s@ == Seq::<usize>::empty()
                } else {
                    s@ == seq![0usize, old(self).rows().len() as usize]
                },
                None => false,
            },
    {
        let n = self.groups.len();
        self.selection = Some(SelectionRange::from(0..n));
    }

    /// True iff every group is ready for conversion; an empty collection
    /// counts as ready.
    pub fn validate(&self) -> (r: bool)
        ensures
            r == (forall|k: int|
                0 <= k < self.rows().len() ==> item_valid(#[trigger] self.rows()[k].item)),
    {
        let n = self.groups.len();
        let mut i: usize = 0;
        while i < n
            invariant
                i <= n,
                n == self.rows().len(),
                forall|k: int| 0 <= k < i ==> item_valid(#[trigger] self.rows()[k].item),
            decreases n - i,
        {
            if !self.groups[i].item.is_valid() {
                return false;
            }
            i = i + 1;
        }
        true
    }

    /// Hands every group out (for the conversion loop, which runs outside
    /// this crate) and leaves the collection empty with no selection.
    pub fn take_all(&mut self) -> (r: Vec<Group>)
        ensures
            r@ == old(self).rows(),
            final(self).rows().len() == 0,
            final(self).sel() is None,
            final(self).inv(),
    {
        self.selection = None;
        let mut out: Vec<Group> = Vec::new();
        std::mem::swap(&mut out, &mut self.groups);
        out
    }

    /// Hands the selection out, e.g. to drive a list widget, leaving none.
    pub fn take_selection(&mut self) -> (r: Option<SelectionRange>)
        ensures
            r == old(self).sel(),
            final(self).rows() == old(self).rows(),
            final(self).sel() is None,
    {
        self.selection.take()
    }

    /// Puts a selection back.
    pub fn set_selection(&mut self, selection: Option<SelectionRange>)
        requires
            match selection {
                Some(s) => s.inv(),
                None => true,
            },
        ensures
            final(self).rows() == old(self).rows(),
            final(self).sel() == selection,
            old(self).inv() ==> final(self).inv(),
    {
        self.selection = selection;
    }
}

/// How `add_file` changes the rows: the file joins the group named by its
/// stem, whose way is kept, or founds a new group at its sorted place.
pub open spec fn add_file_post(
    pre: Seq<Group>,
    post: Seq<Group>,
    path: String,
    file_len: Option<u64>,
) -> bool {
    let stem = stem_of(encode_utf8(path@));
    if exists|j: int| 0 <= j < pre.len() && (#[trigger] pre[j]).name@ == stem {
        let j = choose|j: int| 0 <= j < pre.len() && (#[trigger] pre[j]).name@ == stem;
        exists|g: Group|
            {
                &&& g.name == pre[j].name
                &&& g.item.way == pre[j].item.way
                &&& g.item.paths == paths_set(pre[j].item.paths, path, file_len)
                &&& post == pre.update(j, g)
            }
    } else {
        exists|j: int, g: Group|
            {
                &&& 0 <= j <= pre.len()
                &&& g.name@ == stem
                &&& g.item.way == (if tag_of(encode_utf8(path@), file_len) == Some(Tag::Srm) {
                    Way::Split
                } else {
                    Way::Create
                })
                &&& g.item.paths == paths_set(empty_paths(), path, file_len)
                &&& post == pre.insert(j, g)
            }
    }
}

/// How `add_files` changes the rows: each file is folded in with the
/// `add_file` relation, first file first.
pub open spec fn add_files_rel(
    pre: Seq<Group>,
    files: Seq<(String, Option<u64>)>,
    post: Seq<Group>,
) -> bool
    decreases files.len(),
{
    if files.len() == 0 {
        post == pre
    } else {
        exists|mid: Seq<Group>|
            {
                &&& #[trigger] add_file_post(pre, mid, files[0].0, files[0].1)
                &&& add_files_rel(mid, files.skip(1), post)
            }
    }
}

/// Extending a fold of `add_file` steps by one more file.
proof fn lemma_add_files_rel_snoc(
    pre: Seq<Group>,
    files: Seq<(String, Option<u64>)>,
    mid: Seq<Group>,
    f: (String, Option<u64>),
    post: Seq<Group>,
)
    requires
        add_files_rel(pre, files, mid),
        add_file_post(mid, post, f.0, f.1),
    ensures
        add_files_rel(pre, files.push(f), post),
    decreases files.len(),
{
    if files.len() == 0 {
        assert(mid == pre);
        assert(files.push(f)[0] == f);
        assert(files.push(f).skip(1) =~= Seq::<(String, Option<u64>)>::empty());
        assert(add_files_rel(post, files.push(f).skip(1), post));
        assert(add_file_post(pre, post, f.0, f.1));
    } else {
        let m1 = choose|m1: Seq<Group>|
            {
                &&& #[trigger] add_file_post(pre, m1, files[0].0, files[0].1)
                &&& add_files_rel(m1, files.skip(1), mid)
            };
        lemma_add_files_rel_snoc(m1, files.skip(1), mid, f, post);
        assert(files.push(f).skip(1) =~= files.skip(1).push(f));
        assert(files.push(f)[0] == files[0]);
        assert(add_file_post(pre, m1, files.push(f)[0].0, files.push(f)[0].1));
    }
}

/// The rows that survive removing the selected ones: row `base + k` of `gs`
/// stays exactly when the selection does not cover `base + k`.
pub open spec fn kept(gs: Seq<Group>, sel: Seq<usize>, base: int) -> Seq<Group>
    decreases gs.len(),
{
    if gs.len() == 0 {
        gs
    } else if covers(sel, base) {
        kept(gs.skip(1), sel, base + 1)
    } else {
        seq![gs[0]] + kept(gs.skip(1), sel, base + 1)
    }
}

/// Dropping rows keeps the remaining ones sorted, since each surviving row is
/// one of the original rows and their relative order stands.
proof fn lemma_kept_sorted(gs: Seq<Group>, sel: Seq<usize>, base: int)
    requires
        groups_sorted(gs),
    ensures
        groups_sorted(kept(gs, sel, base)),
        forall|k: int|
            0 <= k < kept(gs, sel, base).len() ==> exists|m: int|
                0 <= m < gs.len() && #[trigger] kept(gs, sel, base)[k] == gs[m],
    decreases gs.len(),
{
    if gs.len() > 0 {
        let t = gs.skip(1);
        assert forall|i: int, j: int| 0 <= i < j < t.len() implies lex_lt(
            t[i].name@,
            t[j].name@,
        ) by {
            assert(t[i] == gs[i + 1] && t[j] == gs[j + 1]);
        }
        lemma_kept_sorted(t, sel, base + 1);
        let kt = kept(t, sel, base + 1);
        if covers(sel, base) {
            assert forall|k: int| 0 <= k < kept(gs, sel, base).len() implies exists|m: int|
                0 <= m < gs.len() && #[trigger] kept(gs, sel, base)[k] == gs[m] by {
                let m0 = choose|m: int| 0 <= m < t.len() && kt[k] == t[m];
                assert(kept(gs, sel, base)[k] == gs[m0 + 1]);
            }
        } else {
            let r = seq![gs[0]] + kt;
            assert forall|k: int| 0 <= k < r.len() implies exists|m: int|
                0 <= m < gs.len() && #[trigger] r[k] == gs[m] by {
                if k == 0 {
                    assert(r[0] == gs[0]);
                } else {
                    assert(r[k] == kt[k - 1]);
                    let m0 = choose|m: int| 0 <= m < t.len() && kt[k - 1] == t[m];
                    assert(r[k] == gs[m0 + 1]);
                }
            }
            assert forall|i: int, j: int| 0 <= i < j < r.len() implies lex_lt(
                r[i].name@,
                r[j].name@,
            ) by {
                if i == 0 {
                    assert(r[j] == kt[j - 1]);
                    let m0 = choose|m: int| 0 <= m < t.len() && kt[j - 1] == t[m];
                    assert(r[j] == gs[m0 + 1]);
                    assert(lex_lt(gs[0].name@, gs[m0 + 1].name@));
                } else {
                    assert(r[i] == kt[i - 1]);
                    assert(r[j] == kt[j - 1]);
                }
            }
        }
    }
}

/// How `put_back` changes the rows: `g` replaces the group of its name, or
/// stands at its sorted place.
pub open spec fn put_back_post(pre: Seq<Group>, post: Seq<Group>, g: Group) -> bool {
    if exists|j: int| 0 <= j < pre.len() && (#[trigger] pre[j]).name@ == g.name@ {
        let j = choose|j: int| 0 <= j < pre.len() && (#[trigger] pre[j]).name@ == g.name@;
        post == pre.update(j, g)
    } else {
        exists|j: int| 0 <= j <= pre.len() && post == pre.insert(j, g)
    }
}

impl FileGroups {
    /// The first row whose name is not below `name`.
    fn lower_bound(&self, name: &Vec<u8>) -> (r: usize)
        requires
            groups_sorted(self.rows()),
        ensures
            r <= self.rows().len(),
            forall|k: int| 0 <= k < r ==> lex_lt((#[trigger] self.rows()[k]).name@, name@),
            r < self.rows().len() ==> !lex_lt(self.rows()[r as int].name@, name@),
    {
        let n = self.groups.len();
        let mut i: usize = 0;
        while i < n && lex_less(&self.groups[i].name, name)
            invariant
                i <= n,
                n == self.rows().len(),
                forall|k: int| 0 <= k < i ==> lex_lt((#[trigger] self.rows()[k]).name@, name@),
            decreases n - i,
        {
            i = i + 1;
        }
        i
    }

    /// The rows stay sorted when one row's name keeps its bytes.
    proof fn lemma_update_same_name_sorted(pre: Seq<Group>, post: Seq<Group>, j: int)
        requires
            groups_sorted(pre),
            post.len() == pre.len(),
            0 <= j < pre.len(),
            post[j].name@ == pre[j].name@,
            forall|k: int| 0 <= k < pre.len() && k != j ==> post[k] == pre[k],
        ensures
            groups_sorted(post),
    {
        assert forall|x: int, y: int| 0 <= x < y < post.len() implies lex_lt(
            post[x].name@,
            post[y].name@,
        ) by {
            assert(lex_lt(pre[x].name@, pre[y].name@));
        }
    }

    /// Files `selected_file` into the group named by its stem: the path joins
    /// the existing group of that name, or founds a new one whose way is
    /// split for a packed file and create for anything else. `file_len` is
    /// the file's size on disk, if known.
    pub fn add_file(&mut self, selected_file: String, file_len: Option<u64>)
        requires
            old(self).inv(),
        ensures
            final(self).inv(),
            final(self).sel() == old(self).sel(),
            add_file_post(old(self).rows(), final(self).rows(), selected_file, file_len),
    {
        let ghost pathv = selected_file;
        let ghost pre = self.groups@;
        let name = file_stem_of(selected_file.as_str());
        let ghost stem = stem_of(encode_utf8(pathv@));
        let i = self.lower_bound(&name);
        let n = self.groups.len();
        if i < n && eq_bytes(&self.groups[i].name, &name) {
            let mut g = self.groups.remove(i);
            g.item.set(selected_file, file_len);
            let ghost gv = g;
            self.groups.insert(i, g);
            proof {
                assert(pre[i as int].name@ == stem);
                assert(exists|j: int| 0 <= j < pre.len() && (#[trigger] pre[j]).name@ == stem);
                let j = choose|j: int| 0 <= j < pre.len() && (#[trigger] pre[j]).name@ == stem;
                if j != i as int {
                    lemma_lex_irreflexive(stem);
                    if j < i as int {
                        assert(lex_lt(pre[j].name@, pre[i as int].name@));
                    } else {
                        assert(lex_lt(pre[i as int].name@, pre[j].name@));
                    }
                    assert(false);
                }
                assert(self.groups@ =~= pre.update(i as int, gv));
                Self::lemma_update_same_name_sorted(pre, self.groups@, i as int);
            }
        } else {
            let item = GroupItem::from(selected_file, file_len);
            let g = Group { name, item };
            let ghost gv = g;
            self.groups.insert(i, g);
            proof {
                assert(gv.name@ == stem);
                lemma_lex_irreflexive(stem);
                assert(!(exists|j: int| 0 <= j < pre.len() && (#[trigger] pre[j]).name@ == stem))
                    by {
                    if exists|j: int| 0 <= j < pre.len() && (#[trigger] pre[j]).name@ == stem {
                        let j = choose|j: int|
                            0 <= j < pre.len() && (#[trigger] pre[j]).name@ == stem;
                        if j < i as int {
                            assert(lex_lt(pre[j].name@, stem));
                        } else {
                            assert(i < n);
                            assert(pre[i as int].name@ != stem);
                            lemma_lex_total(stem, pre[i as int].name@);
                            assert(lex_lt(stem, pre[i as int].name@));
                            if j > i as int {
                                assert(lex_lt(pre[i as int].name@, pre[j].name@));
                                lemma_lex_transitive(stem, pre[i as int].name@, pre[j].name@);
                            }
                        }
                    }
                }
                let post = self.groups@;
                assert(post == pre.insert(i as int, gv));
                assert forall|x: int, y: int| 0 <= x < y < post.len() implies lex_lt(
                    post[x].name@,
                    post[y].name@,
                ) by {
                    if i < n {
                        lemma_lex_total(stem, pre[i as int].name@);
                    }
                    if x == i as int && y > i as int {
                        if y - 1 > i as int {
                            assert(lex_lt(pre[i as int].name@, pre[y - 1].name@));
                            lemma_lex_transitive(stem, pre[i as int].name@, pre[y - 1].name@);
                        }
                    }
                    if x < i as int && y > i as int {
                        assert(lex_lt(pre[x].name@, pre[y - 1].name@));
                    }
                }
            }
        }
    }

    /// Files each of `files` in turn, as `add_file` does; each entry carries
    /// the path and, if known, the file's size on disk.
    pub fn add_files(&mut self, files: Vec<(String, Option<u64>)>)
        requires
            old(self).inv(),
        ensures
            final(self).inv(),
            final(self).sel() == old(self).sel(),
            add_files_rel(old(self).rows(), files@, final(self).rows()),
    {
        let ghost pre = self.groups@;
        let ghost all = files@;
        let total = files.len();
        let mut files = files;
        let ghost done = Seq::<(String, Option<u64>)>::empty();
        let mut done_n: usize = 0;
        proof {
            assert(all.take(0) =~= done);
        }
        while files.len() > 0
            invariant
                self.inv(),
                self.sel() == old(self).sel(),
                total == all.len(),
                done_n <= total,
                files@ == all.skip(done_n as int),
                add_files_rel(pre, all.take(done_n as int), self.rows()),
            decreases files.len(),
        {
            let ghost mid = self.rows();
            let f = files.remove(0);
            self.add_file(f.0, f.1);
            proof {
                assert(all.skip(done_n as int).remove(0) =~= all.skip(done_n as int + 1));
                assert(all[done_n as int] == f);
                assert(all.take(done_n as int + 1) =~= all.take(done_n as int).push(f));
                lemma_add_files_rel_snoc(pre, all.take(done_n as int), mid, f, self.rows());
                assert(done_n < all.len());
            }
            done_n = done_n + 1;
        }
        proof {
            assert(all.skip(done_n as int).len() == 0);
            assert(all.take(done_n as int) =~= all);
        }
    }

    /// Removes every selected row, keeping the others in order, and clears
    /// the selection. With no selection nothing changes.
    pub fn remove_selected(&mut self)
        requires
            old(self).inv(),
        ensures
            final(self).inv(),
            final(self).sel() is None,
            match old(self).sel() {
                Some(s) => final(self).rows() == kept(old(self).rows(), s@, 0),
                None => final(self).rows() == old(self).rows(),
            },
    {
        let taken = self.selection.take();
        let sel = match taken {
            Some(s) => s,
            None => {
                return ;
            },
        };
        let ghost pre = self.groups@;
        let mut rest: Vec<Group> = Vec::new();
        std::mem::swap(&mut rest, &mut self.groups);
        let total = rest.len();
        let mut idx: usize = 0;
        proof {
            assert(pre.skip(0) =~= pre);
            assert(self.groups@ + kept(rest@, sel@, 0) =~= kept(pre, sel@, 0));
        }
        while rest.len() > 0
            invariant
                sel.inv(),
                self.sel() is None,
                total == pre.len(),
                idx <= total,
                rest@ == pre.skip(idx as int),
                self.groups@ + kept(rest@, sel@, idx as int) == kept(pre, sel@, 0),
            decreases rest.len(),
        {
            let ghost before = rest@;
            let ghost built = self.groups@;
            let g = rest.remove(0);
            proof {
                assert(before.remove(0) =~= before.skip(1));
                assert(pre.skip(idx as int).skip(1) =~= pre.skip(idx as int + 1));
                assert(g == before[0]);
            }
            let is_sel = sel.contains(&idx);
            if !is_sel {
                self.groups.push(g);
                proof {
                    assert(self.groups@ =~= built + seq![g]);
                    assert(kept(before, sel@, idx as int) =~= seq![g] + kept(
                        rest@,
                        sel@,
                        idx as int + 1,
                    ));
                    assert((built + seq![g]) + kept(rest@, sel@, idx as int + 1) =~= built + kept(
                        before,
                        sel@,
                        idx as int,
                    ));
                }
            }
            idx = idx + 1;
        }
        proof {
            assert(self.groups@ + kept(rest@, sel@, idx as int) =~= self.groups@);
            lemma_kept_sorted(pre, sel@, 0);
        }
    }

    /// Changes the conversion way of the group at row `i`.
    pub fn set_way(&mut self, i: usize, way: Way)
        requires
            old(self).inv(),
            i < old(self).rows().len(),
        ensures
            final(self).inv(),
            final(self).sel() == old(self).sel(),
            final(self).rows().len() == old(self).rows().len(),
            forall|k: int|
                0 <= k < old(self).rows().len() && k != i ==> final(self).rows()[k] == old(
                    self,
                ).rows()[k],
            final(self).rows()[i as int].name == old(self).rows()[i as int].name,
            final(self).rows()[i as int].item.way == way,
            final(self).rows()[i as int].item.paths == old(self).rows()[i as int].item.paths,
    {
        let ghost pre = self.groups@;
        let mut g = self.groups.remove(i);
        g.item.way = way;
        let ghost gv = g;
        self.groups.insert(i, g);
        proof {
            assert(self.groups@ =~= pre.update(i as int, gv));
            Self::lemma_update_same_name_sorted(pre, self.groups@, i as int);
        }
    }

    /// Files `path` into the group at row `i`, under the slot the path's
    /// extension names, whatever the path's stem is.
    pub fn set_path(&mut self, i: usize, path: String, file_len: Option<u64>)
        requires
            old(self).inv(),
            i < old(self).rows().len(),
        ensures
            final(self).inv(),
            final(self).sel() == old(self).sel(),
            final(self).rows().len() == old(self).rows().len(),
            forall|k: int|
                0 <= k < old(self).rows().len() && k != i ==> final(self).rows()[k] == old(
                    self,
                ).rows()[k],
            final(self).rows()[i as int].name == old(self).rows()[i as int].name,
            final(self).rows()[i as int].item.way == old(self).rows()[i as int].item.way,
            final(self).rows()[i as int].item.paths == paths_set(
                old(self).rows()[i as int].item.paths,
                path,
                file_len,
            ),
    {
        let ghost pre = self.groups@;
        let mut g = self.groups.remove(i);
        g.item.set(path, file_len);
        let ghost gv = g;
        self.groups.insert(i, g);
        proof {
            assert(self.groups@ =~= pre.update(i as int, gv));
            Self::lemma_update_same_name_sorted(pre, self.groups@, i as int);
        }
    }

    /// Takes a group back, e.g. one whose conversion failed: it replaces the
    /// group of the same name, or stands at its sorted place.
    pub fn put_back(&mut self, g: Group)
        requires
            old(self).inv(),
        ensures
            final(self).inv(),
            final(self).sel() == old(self).sel(),
            put_back_post(old(self).rows(), final(self).rows(), g),
    {
        let ghost pre = self.groups@;
        let ghost gv = g;
        let ghost stem = g.name@;
        let i = self.lower_bound(&g.name);
        let n = self.groups.len();
        if i < n && eq_bytes(&self.groups[i].name, &g.name) {
            let _ = self.groups.remove(i);
            self.groups.insert(i, g);
            proof {
                assert(pre[i as int].name@ == stem);
                assert(exists|j: int| 0 <= j < pre.len() && (#[trigger] pre[j]).name@ == stem);
                let j = choose|j: int| 0 <= j < pre.len() && (#[trigger] pre[j]).name@ == stem;
                if j != i as int {
                    lemma_lex_irreflexive(stem);
                    if j < i as int {
                        assert(lex_lt(pre[j].name@, pre[i as int].name@));
                    } else {
                        assert(lex_lt(pre[i as int].name@, pre[j].name@));
                    }
                    assert(false);
                }
                assert(self.groups@ =~= pre.update(i as int, gv));
                Self::lemma_update_same_name_sorted(pre, self.groups@, i as int);
            }
        } else {
            self.groups.insert(i, g);
            proof {
                lemma_lex_irreflexive(stem);
                assert(!(exists|j: int| 0 <= j < pre.len() && (#[trigger] pre[j]).name@ == stem))
                    by {
                    if exists|j: int| 0 <= j < pre.len() && (#[trigger] pre[j]).name@ == stem {
                        let j = choose|j: int|
                            0 <= j < pre.len() && (#[trigger] pre[j]).name@ == stem;
                        if j < i as int {
                            assert(lex_lt(pre[j].name@, stem));
                        } else {
                            assert(i < n);
                            assert(pre[i as int].name@ != stem);
                            lemma_lex_total(stem, pre[i as int].name@);
                            assert(lex_lt(stem, pre[i as int].name@));
                            if j > i as int {
                                assert(lex_lt(pre[i as int].name@, pre[j].name@));
                                lemma_lex_transitive(stem, pre[i as int].name@, pre[j].name@);
                            }
                        }
                    }
                }
                let post = self.groups@;
                assert(post == pre.insert(i as int, gv));
                assert forall|x: int, y: int| 0 <= x < y < post.len() implies lex_lt(
                    post[x].name@,
                    post[y].name@,
                ) by {
                    if i < n {
                        lemma_lex_total(stem, pre[i as int].name@);
                    }
                    if x == i as int && y > i as int {
                        if y - 1 > i as int {
                            assert(lex_lt(pre[i as int].name@, pre[y - 1].name@));
                            lemma_lex_transitive(stem, pre[i as int].name@, pre[y - 1].name@);
                        }
                    }
                    if x < i as int && y > i as int {
                        assert(lex_lt(pre[x].name@, pre[y - 1].name@));
                    }
                }
            }
        }
    }
}

impl Default for FileGroups {
    /// No groups and no selection.
    fn default() -> (r: Self)
        ensures
            r.rows().len() == 0,
            r.sel() is None,
            r.inv(),
    {
        FileGroups { groups: Vec::new(), selection: None }
    }
}

} // verus!
