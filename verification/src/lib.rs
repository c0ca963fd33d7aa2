//! A small content server: maps request paths to files under configured
//! roots, materializes a navigable tree of a directory subtree, negotiates
//! the response format a client asked for, and decides how each request is
//! answered.
//!
//! This crate holds the request-resolution and site-tree logic; the
//! surrounding binary supplies the transport, the template engine and the
//! file streaming.

pub mod text;
pub mod uri;
pub mod response;
pub mod handler;

use vstd::prelude::*;

use crate::text::{name_le, name_le_exec, str_eq, lemma_name_le_total, lemma_name_le_trans};

verus! {

/// One file inside a directory listing of the site tree.
#[derive(Debug)]
pub struct File {
    pub name: String,
    pub path: String,
    pub media_type: Option<String>,
}

/// One directory of the site tree, with its subdirectories and files fully
/// populated before it is attached to its parent.
#[derive(Debug)]
pub struct Directory {
    pub name: String,
    pub path: String,
    pub dirs: Vec<Directory>,
    pub files: Vec<File>,
}

/// What kind of filesystem object a walked entry is.
#[derive(Debug, Clone, Copy, PartialEq, Eq, Structural)]
pub enum EntryKind {
    File,
    Dir,
    Other,
}

/// One entry of a walked subtree, as plain values: the path relative to the
/// walked root, split into its segments, and the kind of the object.
#[derive(Debug)]
pub struct Entry {
    pub segments: Vec<String>,
    pub kind: EntryKind,
}

/// Mathematical image of an [`Entry`].
pub ghost struct EntryV {
    pub segments: Seq<Seq<char>>,
    pub kind: EntryKind,
}

impl View for Entry {
    type V = EntryV;

    open spec fn view(&self) -> EntryV {
        EntryV { segments: self.segments.deep_view(), kind: self.kind }
    }
}

impl DeepView for Entry {
    type V = EntryV;

    open spec fn deep_view(&self) -> EntryV {
        self.view()
    }
}

/// A name is hidden when it starts with a dot.
pub open spec fn hidden_name(s: Seq<char>) -> bool {
    s.len() > 0 && s[0] == '.'
}

/// The leading separator that absolute mode prepends to every path.
pub open spec fn abs_prefix(absolute: bool) -> Seq<char> {
    if absolute {
        seq!['/']
    } else {
        Seq::empty()
    }
}

/// The relative path spelled by a chain of directory names.
pub open spec fn join_chain(chain: Seq<Seq<char>>) -> Seq<char>
    decreases chain.len(),
{
    if chain.len() == 0 {
        Seq::empty()
    } else if chain.len() == 1 {
        chain[0]
    } else {
        join_chain(chain.drop_last()) + seq!['/'] + chain.last()
    }
}

pub proof fn lemma_join_chain_push(chain: Seq<Seq<char>>, nm: Seq<char>)
    ensures
        join_chain(chain.push(nm)) == if chain.len() == 0 {
            nm
        } else {
            join_chain(chain) + seq!['/'] + nm
        },
{
    let c = chain.push(nm);
    assert(c.last() == nm);
    assert(c.drop_last() =~= chain);
    if chain.len() == 0 {
        assert(c.len() == 1);
        assert(c[0] == nm);
    }
}

/// An entry that is a file lying directly inside a directory at `depth`
/// whose name there is `nm`.
pub open spec fn is_file_entry(e: EntryV, depth: int, nm: Seq<char>) -> bool {
    &&& e.kind is File
    &&& e.segments.len() == depth + 1
    &&& e.segments[depth] == nm
}

/// An entry that is a directory lying directly inside a directory at `depth`
/// whose name there is `nm`.
pub open spec fn is_dir_entry(e: EntryV, depth: int, nm: Seq<char>) -> bool {
    &&& e.kind is Dir
    &&& e.segments.len() == depth + 1
    &&& e.segments[depth] == nm
}

/// The listed entries hold a file named `nm` directly below the directory
/// at `depth`.
pub open spec fn has_file_child(list: Seq<EntryV>, depth: int, nm: Seq<char>) -> bool {
    exists|j: int| 0 <= j < list.len() && is_file_entry(#[trigger] list[j], depth, nm)
}

/// The listed entries hold a directory named `nm` directly below the
/// directory at `depth`.
pub open spec fn has_dir_child(list: Seq<EntryV>, depth: int, nm: Seq<char>) -> bool {
    exists|j: int| 0 <= j < list.len() && is_dir_entry(#[trigger] list[j], depth, nm)
}

/// An entry lying strictly below the child named `nm` of a directory at
/// `depth`.
pub open spec fn below_child(e: EntryV, depth: int, nm: Seq<char>) -> bool {
    e.segments.len() > depth + 1 && e.segments[depth] == nm
}

/// The entries of `list` that lie strictly below the child named `nm` of a
/// directory at `depth`, in their original order.
pub open spec fn sub_entries(list: Seq<EntryV>, depth: int, nm: Seq<char>) -> Seq<EntryV>
    decreases list.len(),
{
    if list.len() == 0 {
        Seq::empty()
    } else {
        let rest = sub_entries(list.drop_last(), depth, nm);
        if below_child(list.last(), depth, nm) {
            rest.push(list.last())
        } else {
            rest
        }
    }
}

pub proof fn lemma_sub_entries_len(list: Seq<EntryV>, depth: int, nm: Seq<char>)
    ensures
        sub_entries(list, depth, nm).len() <= list.len(),
    decreases list.len(),
{
    if list.len() > 0 {
        lemma_sub_entries_len(list.drop_last(), depth, nm);
    }
}

/// Containing one element that is not below the child makes the selection
/// strictly shorter than the list.
pub proof fn lemma_sub_entries_strict(list: Seq<EntryV>, depth: int, nm: Seq<char>, j: int)
    requires
        0 <= j < list.len(),
        !below_child(list[j], depth, nm),
    ensures
        sub_entries(list, depth, nm).len() < list.len(),
    decreases list.len(),
{
    if j == list.len() - 1 {
        lemma_sub_entries_len(list.drop_last(), depth, nm);
    } else {
        assert(list.drop_last()[j] == list[j]);
        lemma_sub_entries_strict(list.drop_last(), depth, nm, j);
    }
}

/// Selecting from one more element keeps the earlier selection and appends
/// the element exactly when it lies below the child.
proof fn lemma_sub_entries_take_step(list: Seq<EntryV>, depth: int, nm: Seq<char>, j: int)
    requires
        0 <= j < list.len(),
    ensures
        sub_entries(list.take(j + 1), depth, nm) == (if below_child(list[j], depth, nm) {
            sub_entries(list.take(j), depth, nm).push(list[j])
        } else {
            sub_entries(list.take(j), depth, nm)
        }),
{
    let t1 = list.take(j + 1);
    assert(t1.last() == list[j]);
    assert(t1.drop_last() =~= list.take(j));
}

/// The names of a sequence of strings, as character sequences.
pub open spec fn names_of(s: Seq<String>) -> Seq<Seq<char>> {
    Seq::new(s.len(), |i: int| s[i]@)
}

/// The names of the file entries of a listing.
pub open spec fn file_names(files: Seq<File>) -> Seq<Seq<char>> {
    Seq::new(files.len(), |i: int| files[i].name@)
}

/// The names of the subdirectories of a listing.
pub open spec fn dir_names(dirs: Seq<Directory>) -> Seq<Seq<char>> {
    Seq::new(dirs.len(), |i: int| dirs[i].name@)
}

/// Case-insensitively sorted.
pub open spec fn sorted_names(names: Seq<Seq<char>>) -> bool {
    forall|i: int, j: int|
        0 <= i <= j < names.len() ==> name_le(#[trigger] names[i], #[trigger] names[j])
}

/// No name occurs twice.
pub open spec fn distinct_names(names: Seq<Seq<char>>) -> bool {
    forall|i: int, j: int| 0 <= i < j < names.len() ==> #[trigger] names[i] != #[trigger] names[j]
}

/// Appending a string adds exactly its name to the name sequence.
proof fn lemma_names_push_membership(s: Seq<String>, x: String)
    ensures
        forall|nm: Seq<char>|
            #[trigger] names_of(s.push(x)).contains(nm) == (names_of(s).contains(nm) || nm == x@),
{
    let p = s.push(x);
    assert forall|nm: Seq<char>|
        #[trigger] names_of(p).contains(nm) == (names_of(s).contains(nm) || nm == x@) by {
        if names_of(p).contains(nm) {
            let k = choose|k: int| 0 <= k < names_of(p).len() && names_of(p)[k] == nm;
            if k < s.len() {
                assert(names_of(s)[k] == nm);
            }
        }
        if names_of(s).contains(nm) {
            let k = choose|k: int| 0 <= k < names_of(s).len() && names_of(s)[k] == nm;
            assert(names_of(p)[k] == nm);
        }
        if nm == x@ {
            assert(names_of(p)[s.len() as int] == nm);
        }
    }
}

/// Inserting a string adds exactly its name to the name sequence.
proof fn lemma_names_insert_membership(s: Seq<String>, k0: int, x: String)
    requires
        0 <= k0 <= s.len(),
    ensures
        forall|nm: Seq<char>|
            #[trigger] names_of(s.insert(k0, x)).contains(nm) == (names_of(s).contains(nm) || nm
                == x@),
{
    let p = s.insert(k0, x);
    s.insert_ensures(k0, x);
    assert forall|nm: Seq<char>|
        #[trigger] names_of(p).contains(nm) == (names_of(s).contains(nm) || nm == x@) by {
        if names_of(p).contains(nm) {
            let k = choose|k: int| 0 <= k < names_of(p).len() && names_of(p)[k] == nm;
            if k < k0 {
                assert(names_of(s)[k] == nm);
            } else if k > k0 {
                assert(p[k] == s[k - 1]);
                assert(names_of(s)[k - 1] == nm);
            }
        }
        if names_of(s).contains(nm) {
            let k = choose|k: int| 0 <= k < names_of(s).len() && names_of(s)[k] == nm;
            if k < k0 {
                assert(names_of(p)[k] == nm);
            } else {
                assert(p[k + 1] == s[k]);
                assert(names_of(p)[k + 1] == nm);
            }
        }
        if nm == x@ {
            assert(names_of(p)[k0] == nm);
        }
    }
}

/// The tree `d` is exactly the tree that the entries of `list` describe for
/// the directory reached through the names of `chain`: its files and
/// subdirectories are the non-hidden entries directly below that directory,
/// each listed once and sorted case-insensitively, their paths spelled from
/// `chain` (with a
/// leading separator exactly when `absolute` holds, and a trailing one on
/// every subdirectory), and every subdirectory in turn describes the entries
/// below it.  Hidden entries, and everything beneath a hidden directory,
/// are absent.
pub open spec fn represents(
    d: Directory,
    chain: Seq<Seq<char>>,
    list: Seq<EntryV>,
    absolute: bool,
) -> bool
    decreases d,
{
    let depth = chain.len() as int;
    // files: no hidden names, exact paths, nothing invented
    &&& forall|i: int| 0 <= i < d.files@.len() ==> {
        let f = #[trigger] d.files@[i];
        &&& !hidden_name(f.name@)
        &&& f.path@ == abs_prefix(absolute) + join_chain(chain.push(f.name@))
        &&& f.media_type is None
        &&& has_file_child(list, depth, f.name@)
    }
    // files: nothing forgotten
    &&& forall|j: int|
        0 <= j < list.len() && (#[trigger] list[j]).kind is File && list[j].segments.len() == depth
            + 1 && !hidden_name(list[j].segments[depth]) ==> file_names(d.files@).contains(
            list[j].segments[depth],
        )
    &&& sorted_names(file_names(d.files@))
    &&& distinct_names(file_names(d.files@))
    // subdirectories: no hidden names, exact paths, nothing invented
    &&& forall|i: int| 0 <= i < d.dirs@.len() ==> {
        let c = #[trigger] d.dirs@[i];
        &&& !hidden_name(c.name@)
        &&& c.path@ == abs_prefix(absolute) + join_chain(chain.push(c.name@)) + seq!['/']
        &&& has_dir_child(list, depth, c.name@)
    }
    // subdirectories: nothing forgotten
    &&& forall|j: int|
        0 <= j < list.len() && (#[trigger] list[j]).kind is Dir && list[j].segments.len() == depth
            + 1 && !hidden_name(list[j].segments[depth]) ==> dir_names(d.dirs@).contains(
            list[j].segments[depth],
        )
    &&& sorted_names(dir_names(d.dirs@))
    &&& distinct_names(dir_names(d.dirs@))
    // each subdirectory describes what lies below it
    &&& forall|i: int|
        0 <= i < d.dirs@.len() ==> represents(
            #[trigger] d.dirs@[i],
            chain.push(d.dirs@[i].name@),
            sub_entries(list, depth, d.dirs@[i].name@),
            absolute,
        )
}

impl Entry {
    /// A copy of this entry, equal to it in every field.
    pub fn duplicate(&self) -> (e: Entry)
        ensures
            e@ == self@,
    {
        let mut segments: Vec<String> = Vec::new();
        let mut i: usize = 0;
        while i < self.segments.len()
            invariant
                i <= self.segments@.len(),
                segments@.len() == i,
                forall|k: int| 0 <= k < i ==> segments@[k]@ == self.segments@[k]@,
            decreases self.segments@.len() - i,
        {
            segments.push(self.segments[i].clone());
            i = i + 1;
        }
        let e = Entry { segments, kind: self.kind };
        proof {
            assert(e.segments.deep_view() =~= self.segments.deep_view());
        }
        e
    }
}

/// Inserts `x` into the case-insensitively sorted `v`, keeping it sorted;
/// the result is `v` with `x` inserted at one position.
fn insert_sorted(v: &mut Vec<String>, x: String)
    requires
        sorted_names(names_of(old(v)@)),
    ensures
        sorted_names(names_of(final(v)@)),
        exists|k: int| 0 <= k <= old(v)@.len() && final(v)@ == old(v)@.insert(k, x),
{
    let mut idx: usize = 0;
    while idx < v.len() && name_le_exec(v[idx].as_str(), x.as_str())
        invariant
            idx <= v@.len(),
            v == old(v),
            forall|t: int| 0 <= t < idx ==> name_le(#[trigger] names_of(v@)[t], x@),
        decreases v@.len() - idx,
    {
        idx = idx + 1;
    }
    proof {
        if idx < v@.len() {
            lemma_name_le_total(v@[idx as int]@, x@);
            assert(name_le(x@, names_of(v@)[idx as int]));
        }
    }
    let ghost oldv = v@;
    v.insert(idx, x);
    proof {
        oldv.insert_ensures(idx as int, x);
        let names_new = names_of(v@);
        let names_old = names_of(oldv);
        assert forall|i: int, j: int| 0 <= i <= j < names_new.len() implies name_le(
            #[trigger] names_new[i],
            #[trigger] names_new[j],
        ) by {
            let k = idx as int;
            if i < k && j < k {
                assert(names_new[i] == names_old[i] && names_new[j] == names_old[j]);
                assert(name_le(names_old[i], names_old[j]));
            } else if i < k && j == k {
                assert(names_new[i] == names_old[i] && names_new[j] == x@);
                assert(name_le(names_old[i], x@));
            } else if i < k && j > k {
                assert(names_new[i] == names_old[i] && names_new[j] == names_old[j - 1]);
                assert(name_le(names_old[i], names_old[j - 1]));
            } else if i == k && j == k {
                lemma_name_le_total(x@, x@);
            } else if i == k && j > k {
                assert(names_new[j] == names_old[j - 1]);
                if k < names_old.len() {
                    assert(name_le(x@, names_old[k]));
                    assert(name_le(names_old[k], names_old[j - 1]));
                    lemma_name_le_trans(x@, names_old[k], names_old[j - 1]);
                }
            } else {
                assert(names_new[i] == names_old[i - 1] && names_new[j] == names_old[j - 1]);
                assert(name_le(names_old[i - 1], names_old[j - 1]));
            }
        }
    }
}

/// Whether the name of `x` already occurs among the given strings.
fn contains_name(v: &Vec<String>, x: &str) -> (r: bool)
    ensures
        r == names_of(v@).contains(x@),
{
    let mut t: usize = 0;
    while t < v.len()
        invariant
            t <= v@.len(),
            forall|k: int| 0 <= k < t ==> #[trigger] names_of(v@)[k] != x@,
        decreases v@.len() - t,
    {
        if str_eq(v[t].as_str(), x) {
            proof {
                assert(names_of(v@)[t as int] == x@);
            }
            return true;
        }
        t = t + 1;
    }
    proof {
        if names_of(v@).contains(x@) {
            let k = choose|k: int| 0 <= k < names_of(v@).len() && names_of(v@)[k] == x@;
            assert(false);
        }
    }
    false
}

/// The given names in case-insensitively sorted order, each name kept
/// once: same set of names, sorted and duplicate-free.
fn sort_names(names: Vec<String>) -> (r: Vec<String>)
    ensures
        sorted_names(names_of(r@)),
        distinct_names(names_of(r@)),
        forall|nm: Seq<char>| #[trigger] names_of(r@).contains(nm) == names_of(names@).contains(nm),
{
    let mut r: Vec<String> = Vec::new();
    let mut i: usize = 0;
    while i < names.len()
        invariant
            i <= names@.len(),
            sorted_names(names_of(r@)),
            distinct_names(names_of(r@)),
            forall|nm: Seq<char>|
                #[trigger] names_of(r@).contains(nm) == names_of(names@.take(i as int)).contains(
                    nm,
                ),
        decreases names@.len() - i,
    {
        let x = names[i].clone();
        let ghost x_spec = x;
        let ghost old_r = r@;
        proof {
            assert(names@.take(i + 1) =~= names@.take(i as int).push(names@[i as int]));
            lemma_names_push_membership(names@.take(i as int), names@[i as int]);
        }
        if !contains_name(&r, x.as_str()) {
            insert_sorted(&mut r, x);
            proof {
                let k0 = choose|k: int| 0 <= k <= old_r.len() && r@ == old_r.insert(k, x_spec);
                lemma_names_insert_membership(old_r, k0, x_spec);
                old_r.insert_ensures(k0, x_spec);
                let names_new = names_of(r@);
                let names_old = names_of(old_r);
                assert forall|a: int, b: int| 0 <= a < b < names_new.len() implies #[trigger]
                names_new[a] != #[trigger] names_new[b] by {
                    if a < k0 && b < k0 {
                        assert(names_new[a] == names_old[a] && names_new[b] == names_old[b]);
                    } else if a < k0 && b == k0 {
                        assert(names_new[a] == names_old[a] && names_new[b] == x_spec@);
                    } else if a < k0 && b > k0 {
                        assert(names_new[a] == names_old[a] && names_new[b] == names_old[b - 1]);
                    } else if a == k0 && b > k0 {
                        assert(names_new[a] == x_spec@ && names_new[b] == names_old[b - 1]);
                    } else {
                        assert(names_new[a] == names_old[a - 1] && names_new[b] == names_old[b
                            - 1]);
                    }
                }
                assert forall|nm: Seq<char>|
                    #[trigger] names_of(r@).contains(nm) == names_of(names@.take(i + 1)).contains(
                        nm,
                    ) by {
                    assert(names_of(r@).contains(nm) == (names_of(old_r).contains(nm) || nm
                        == x_spec@));
                }
            }
        } else {
            proof {
                assert forall|nm: Seq<char>|
                    #[trigger] names_of(r@).contains(nm) == names_of(names@.take(i + 1)).contains(
                        nm,
                    ) by {
                    if nm == names@[i as int]@ {
                        assert(names_of(r@).contains(x_spec@));
                    }
                }
            }
        }
        i = i + 1;
    }
    proof {
        assert(names@.take(names@.len() as int) =~= names@);
    }
    r
}

/// The names of the non-hidden entries of the given kind lying directly
/// below a directory at `depth`, in the order encountered.
fn collect_child_names(list: &Vec<Entry>, depth: usize, want_dirs: bool) -> (names: Vec<String>)
    ensures
        forall|k: int|
            0 <= k < names@.len() ==> !hidden_name((#[trigger] names@[k])@) && (if want_dirs {
                has_dir_child(list.deep_view(), depth as int, names@[k]@)
            } else {
                has_file_child(list.deep_view(), depth as int, names@[k]@)
            }),
        forall|j: int|
            0 <= j < list.deep_view().len() && (#[trigger] list.deep_view()[j]).kind == (
            if want_dirs {
                EntryKind::Dir
            } else {
                EntryKind::File
            }) && list.deep_view()[j].segments.len() == depth + 1 && !hidden_name(
                list.deep_view()[j].segments[depth as int],
            ) ==> names_of(names@).contains(list.deep_view()[j].segments[depth as int]),
        names@.len() > 0 ==> depth < usize::MAX,
{
    let ghost lst = list.deep_view();
    let ghost depth_i = depth as int;
    let want_kind = if want_dirs {
        EntryKind::Dir
    } else {
        EntryKind::File
    };
    let mut names: Vec<String> = Vec::new();
    let mut i: usize = 0;
    while i < list.len()
        invariant
            i <= list@.len(),
            lst == list.deep_view(),
            lst.len() == list@.len(),
            depth_i == depth as int,
            want_kind == (if want_dirs {
                EntryKind::Dir
            } else {
                EntryKind::File
            }),
            names@.len() > 0 ==> depth < usize::MAX,
            forall|k: int|
                0 <= k < names@.len() ==> !hidden_name((#[trigger] names@[k])@) && (if want_dirs {
                    has_dir_child(lst, depth_i, names@[k]@)
                } else {
                    has_file_child(lst, depth_i, names@[k]@)
                }),
            forall|j: int|
                0 <= j < i && (#[trigger] lst[j]).kind == want_kind && lst[j].segments.len()
                    == depth_i + 1 && !hidden_name(lst[j].segments[depth_i]) ==> names_of(
                    names@,
                ).contains(lst[j].segments[depth_i]),
        decreases list@.len() - i,
    {
        let e = &list[i];
        let nsegs = e.segments.len();
        proof {
            assert(lst[i as int] == list@[i as int]@);
        }
        if nsegs >= 1 && nsegs - 1 == depth && e.kind == want_kind {
            let nm = e.segments[nsegs - 1].clone();
            proof {
                assert(lst[i as int].segments[depth_i] == nm@);
            }
            if !is_hidden(nm.as_str()) {
                let ghost old_names = names@;
                let ghost nm_spec = nm;
                names.push(nm);
                proof {
                    lemma_names_push_membership(old_names, nm_spec);
                    assert(names@ == old_names.push(nm_spec));
                    assert forall|k: int| 0 <= k < names@.len() implies !hidden_name(
                        (#[trigger] names@[k])@,
                    ) && (if want_dirs {
                        has_dir_child(lst, depth_i, names@[k]@)
                    } else {
                        has_file_child(lst, depth_i, names@[k]@)
                    }) by {
                        if k < old_names.len() {
                            assert(names@[k] == old_names[k]);
                        } else {
                            assert(names@[k] == nm_spec);
                            if want_dirs {
                                assert(is_dir_entry(lst[i as int], depth_i, nm_spec@));
                            } else {
                                assert(is_file_entry(lst[i as int], depth_i, nm_spec@));
                            }
                        }
                    }
                    assert forall|j: int|
                        0 <= j < i + 1 && (#[trigger] lst[j]).kind == want_kind
                            && lst[j].segments.len() == depth_i + 1 && !hidden_name(
                            lst[j].segments[depth_i],
                        ) implies names_of(names@).contains(lst[j].segments[depth_i]) by {
                        if j == i {
                            assert(names_of(names@).contains(nm_spec@));
                        } else {
                            assert(names_of(old_names).contains(lst[j].segments[depth_i]));
                        }
                    }
                }
            } else {
                proof {
                    assert(hidden_name(lst[i as int].segments[depth_i]));
                }
            }
        }
        i = i + 1;
    }
    names
}

/// The path of the child named `nm` of the directory whose relative path is
/// `base`: the two joined with a separator (just `nm` at the root), with a
/// leading separator in absolute mode.
fn child_path(base: &str, nm: &str, at_root: bool, absolute: bool) -> (p: String)
    ensures
        p@ == abs_prefix(absolute) + (if at_root {
            nm@
        } else {
            base@ + seq!['/'] + nm@
        }),
{
    let rel: String = if at_root {
        nm.to_owned()
    } else {
        let mut b = base.to_owned();
        b.append("/");
        b.append(nm);
        proof {
            reveal_strlit("/");
            assert(b@ =~= base@ + seq!['/'] + nm@);
        }
        b
    };
    if absolute {
        let r = make_abs(rel.as_str());
        proof {
            assert(r@ =~= abs_prefix(true) + rel@);
        }
        r
    } else {
        proof {
            assert(abs_prefix(false) + rel@ =~= rel@);
        }
        rel
    }
}

/// The file entries of a listing, in the order of the given names, with
/// their paths spelled below `base`.
fn build_files(
    names: &Vec<String>,
    depth: usize,
    base: &str,
    absolute: bool,
    Ghost(chain): Ghost<Seq<Seq<char>>>,
) -> (files: Vec<File>)
    requires
        depth == chain.len(),
        base@ == join_chain(chain),
    ensures
        files@.len() == names@.len(),
        forall|k: int|
            0 <= k < names@.len() ==> (#[trigger] files@[k]).name@ == names@[k]@ && files@[k].path@
                == abs_prefix(absolute) + join_chain(chain.push(names@[k]@))
                && files@[k].media_type is None,
{
    let mut files: Vec<File> = Vec::new();
    let mut i: usize = 0;
    while i < names.len()
        invariant
            i <= names@.len(),
            files@.len() == i,
            depth == chain.len(),
            base@ == join_chain(chain),
            forall|k: int|
                0 <= k < i ==> (#[trigger] files@[k]).name@ == names@[k]@ && files@[k].path@
                    == abs_prefix(absolute) + join_chain(chain.push(names@[k]@))
                    && files@[k].media_type is None,
        decreases names@.len() - i,
    {
        let nm = names[i].clone();
        let p = child_path(base, nm.as_str(), depth == 0, absolute);
        proof {
            lemma_join_chain_push(chain, nm@);
        }
        files.push(File { name: nm, path: p, media_type: None });
        i = i + 1;
    }
    files
}

/// The entries of `list` lying strictly below the child named `nm` of a
/// directory at `depth`; given a sibling entry of that child, the result is
/// strictly shorter than `list`.
fn collect_below(list: &Vec<Entry>, depth: usize, nm: &str, Ghost(jw): Ghost<int>) -> (sub: Vec<
    Entry,
>)
    requires
        0 <= jw < list.deep_view().len(),
        list.deep_view()[jw].segments.len() == depth + 1,
    ensures
        sub.deep_view() == sub_entries(list.deep_view(), depth as int, nm@),
        sub@.len() < list@.len(),
{
    let ghost lst = list.deep_view();
    let ghost depth_i = depth as int;
    let mut sub: Vec<Entry> = Vec::new();
    let mut j: usize = 0;
    while j < list.len()
        invariant
            j <= list@.len(),
            lst == list.deep_view(),
            lst.len() == list@.len(),
            depth_i == depth as int,
            sub.deep_view() == sub_entries(lst.take(j as int), depth_i, nm@),
        decreases list@.len() - j,
    {
        let e = &list[j];
        let nsegs = e.segments.len();
        let is_below = nsegs >= 1 && nsegs - 1 > depth && str_eq(e.segments[depth].as_str(), nm);
        proof {
            assert(lst[j as int] == list@[j as int]@);
            assert(lst[j as int].segments.len() == e.segments@.len());
            if nsegs >= 1 && nsegs - 1 > depth {
                assert(lst[j as int].segments[depth_i] == e.segments@[depth_i]@);
            }
            assert(is_below == below_child(lst[j as int], depth_i, nm@));
        }
        let ghost old_sub = sub.deep_view();
        if is_below {
            sub.push(e.duplicate());
        }
        proof {
            lemma_sub_entries_take_step(lst, depth_i, nm@, j as int);
            if is_below {
                assert(sub.deep_view() =~= old_sub.push(lst[j as int]));
            }
        }
        j = j + 1;
    }
    proof {
        assert(lst.take(lst.len() as int) =~= lst);
        assert(!below_child(lst[jw], depth_i, nm@));
        lemma_sub_entries_strict(lst, depth_i, nm@, jw);
        assert(sub@.len() == sub.deep_view().len());
    }
    sub
}

/// Builds the node for the directory reached through the names of `chain`
/// (whose relative path reads `base`) from the entries lying below it:
/// keeps the entries directly below, drops hidden names, sorts
/// case-insensitively, and recurses into each subdirectory.
#[verifier::rlimit(60)]
fn build_node(
    list: &Vec<Entry>,
    depth: usize,
    base: &str,
    name: String,
    absolute: bool,
    Ghost(chain): Ghost<Seq<Seq<char>>>,
) -> (d: Directory)
    requires
        depth == chain.len(),
        base@ == join_chain(chain),
    ensures
        d.name == name,
        d.path@ == abs_prefix(absolute) + join_chain(chain) + seq!['/'],
        represents(d, chain, list.deep_view(), absolute),
    decreases list@.len(),
{
    let ghost lst = list.deep_view();
    let ghost depth_i = depth as int;

    let file_names_raw = collect_child_names(list, depth, false);
    let file_names_v = sort_names(file_names_raw);
    let dir_names_raw = collect_child_names(list, depth, true);
    let dir_names_v = sort_names(dir_names_raw);
    proof {
        if dir_names_v@.len() > 0 {
            assert(names_of(dir_names_v@).contains(names_of(dir_names_v@)[0]));
        }
        assert forall|k: int| 0 <= k < file_names_v@.len() implies !hidden_name(
            (#[trigger] file_names_v@[k])@,
        ) && has_file_child(lst, depth_i, file_names_v@[k]@) by {
            assert(names_of(file_names_v@)[k] == file_names_v@[k]@);
            assert(names_of(file_names_v@).contains(file_names_v@[k]@));
            let k2 = choose|k2: int|
                0 <= k2 < names_of(file_names_raw@).len() && names_of(file_names_raw@)[k2]
                    == file_names_v@[k]@;
            assert(file_names_raw@[k2]@ == file_names_v@[k]@);
        }
        assert forall|k: int| 0 <= k < dir_names_v@.len() implies !hidden_name(
            (#[trigger] dir_names_v@[k])@,
        ) && has_dir_child(lst, depth_i, dir_names_v@[k]@) by {
            assert(names_of(dir_names_v@)[k] == dir_names_v@[k]@);
            assert(names_of(dir_names_v@).contains(dir_names_v@[k]@));
            let k2 = choose|k2: int|
                0 <= k2 < names_of(dir_names_raw@).len() && names_of(dir_names_raw@)[k2]
                    == dir_names_v@[k]@;
            assert(dir_names_raw@[k2]@ == dir_names_v@[k]@);
        }
    }
    let files = build_files(&file_names_v, depth, base, absolute, Ghost(chain));

    // the subdirectories, in sorted order, each built from the entries
    // below it
    let mut dirs: Vec<Directory> = Vec::new();
    let mut i: usize = 0;
    while i < dir_names_v.len()
        invariant
            i <= dir_names_v@.len(),
            dirs@.len() == i,
            lst == list.deep_view(),
            lst.len() == list@.len(),
            depth_i == depth as int,
            depth == chain.len(),
            dir_names_v@.len() > 0 ==> depth < usize::MAX,
            base@ == join_chain(chain),
            forall|k: int|
                0 <= k < dir_names_v@.len() ==> !hidden_name((#[trigger] dir_names_v@[k])@)
                    && has_dir_child(lst, depth_i, dir_names_v@[k]@),
            forall|k: int|
                0 <= k < i ==> (#[trigger] dirs@[k]).name@ == dir_names_v@[k]@ && dirs@[k].path@
                    == abs_prefix(absolute) + join_chain(chain.push(dir_names_v@[k]@)) + seq!['/']
                    && represents(
                    dirs@[k],
                    chain.push(dir_names_v@[k]@),
                    sub_entries(lst, depth_i, dir_names_v@[k]@),
                    absolute,
                ),
        decreases dir_names_v@.len() - i,
    {
        let nm = dir_names_v[i].clone();
        let ghost nm_view = nm@;
        let ghost jw = choose|j: int|
            0 <= j < lst.len() && is_dir_entry(#[trigger] lst[j], depth_i, nm_view);
        let sub = collect_below(list, depth, nm.as_str(), Ghost(jw));

        // this child's relative path, then its node
        let child_base = child_path(base, nm.as_str(), depth == 0, false);
        proof {
            lemma_join_chain_push(chain, nm_view);
            assert(child_base@ == join_chain(chain.push(nm_view)));
        }
        let child = build_node(
            &sub,
            depth + 1,
            child_base.as_str(),
            nm,
            absolute,
            Ghost(chain.push(nm_view)),
        );
        dirs.push(child);
        i = i + 1;
    }

    // finalize this node's own path: trailing separator, and a leading one
    // in absolute mode
    let mut own = base.to_owned();
    format_dir(&mut own);
    let path = if absolute {
        make_abs(own.as_str())
    } else {
        own
    };
    proof {
        assert(path@ =~= abs_prefix(absolute) + join_chain(chain) + seq!['/']);
    }
    let d = Directory { name, path, dirs, files };
    proof {
        assert(file_names(d.files@) =~= names_of(file_names_v@));
        assert(dir_names(d.dirs@) =~= names_of(dir_names_v@));
        assert forall|j: int|
            0 <= j < lst.len() && (#[trigger] lst[j]).kind is File && lst[j].segments.len()
                == depth_i + 1 && !hidden_name(lst[j].segments[depth_i]) implies file_names(
            d.files@,
        ).contains(lst[j].segments[depth_i]) by {
            assert(lst[j] == list.deep_view()[j]);
            assert(names_of(file_names_raw@).contains(lst[j].segments[depth_i]));
        }
        assert forall|j: int|
            0 <= j < lst.len() && (#[trigger] lst[j]).kind is Dir && lst[j].segments.len()
                == depth_i + 1 && !hidden_name(lst[j].segments[depth_i]) implies dir_names(
            d.dirs@,
        ).contains(lst[j].segments[depth_i]) by {
            assert(lst[j] == list.deep_view()[j]);
            assert(names_of(dir_names_raw@).contains(lst[j].segments[depth_i]));
        }
    }
    d
}

/// No name anywhere in the tree, of a file or of a directory, is hidden.
pub open spec fn tree_no_hidden(d: Directory) -> bool
    decreases d,
{
    &&& forall|i: int| 0 <= i < d.files@.len() ==> !hidden_name((#[trigger] d.files@[i]).name@)
    &&& forall|i: int|
        0 <= i < d.dirs@.len() ==> !hidden_name((#[trigger] d.dirs@[i]).name@) && tree_no_hidden(
            d.dirs@[i],
        )
}

/// Every listing in the tree is case-insensitively sorted by name.
pub open spec fn tree_sorted(d: Directory) -> bool
    decreases d,
{
    &&& sorted_names(file_names(d.files@))
    &&& sorted_names(dir_names(d.dirs@))
    &&& forall|i: int| 0 <= i < d.dirs@.len() ==> tree_sorted(#[trigger] d.dirs@[i])
}

/// Hidden-file exclusion: a tree that describes a set of entries holds
/// no hidden name anywhere.  A hidden entry is never listed, and a node
/// for anything beneath a hidden directory could only hang off a child
/// named with that hidden name, which no node has — so nothing beneath a
/// hidden directory appears either.
pub proof fn lemma_hidden_excluded(
    d: Directory,
    chain: Seq<Seq<char>>,
    list: Seq<EntryV>,
    absolute: bool,
)
    requires
        represents(d, chain, list, absolute),
    ensures
        tree_no_hidden(d),
    decreases d,
{
    assert forall|i: int| 0 <= i < d.dirs@.len() implies !hidden_name(
        (#[trigger] d.dirs@[i]).name@,
    ) && tree_no_hidden(d.dirs@[i]) by {
        lemma_hidden_excluded(
            d.dirs@[i],
            chain.push(d.dirs@[i].name@),
            sub_entries(list, chain.len() as int, d.dirs@[i].name@),
            absolute,
        );
    }
}

/// Sort order: every listing in a tree that describes a set of entries,
/// files and subdirectories alike, is case-insensitively sorted by name.
pub proof fn lemma_listings_sorted(
    d: Directory,
    chain: Seq<Seq<char>>,
    list: Seq<EntryV>,
    absolute: bool,
)
    requires
        represents(d, chain, list, absolute),
    ensures
        tree_sorted(d),
    decreases d,
{
    assert forall|i: int| 0 <= i < d.dirs@.len() implies tree_sorted(#[trigger] d.dirs@[i]) by {
        lemma_listings_sorted(
            d.dirs@[i],
            chain.push(d.dirs@[i].name@),
            sub_entries(list, chain.len() as int, d.dirs@[i].name@),
            absolute,
        );
    }
}

/// Every listing in the tree, files and subdirectories alike, names each
/// child once.
pub open spec fn tree_distinct(d: Directory) -> bool
    decreases d,
{
    &&& distinct_names(file_names(d.files@))
    &&& distinct_names(dir_names(d.dirs@))
    &&& forall|i: int| 0 <= i < d.dirs@.len() ==> tree_distinct(#[trigger] d.dirs@[i])
}

/// Listing uniqueness: a tree that describes a set of entries lists no
/// child twice at any node.
pub proof fn lemma_listings_distinct(
    d: Directory,
    chain: Seq<Seq<char>>,
    list: Seq<EntryV>,
    absolute: bool,
)
    requires
        represents(d, chain, list, absolute),
    ensures
        tree_distinct(d),
    decreases d,
{
    assert forall|i: int| 0 <= i < d.dirs@.len() implies tree_distinct(#[trigger] d.dirs@[i]) by {
        lemma_listings_distinct(
            d.dirs@[i],
            chain.push(d.dirs@[i].name@),
            sub_entries(list, chain.len() as int, d.dirs@[i].name@),
            absolute,
        );
    }
}

/// The path begins with the separator.
pub open spec fn starts_sep(p: Seq<char>) -> bool {
    p.len() > 0 && p[0] == '/'
}

/// Every path emitted below the root begins with the separator exactly
/// when `absolute` holds.
pub open spec fn tree_paths_anchored(d: Directory, absolute: bool) -> bool
    decreases d,
{
    &&& forall|i: int|
        0 <= i < d.files@.len() ==> starts_sep((#[trigger] d.files@[i]).path@) == absolute
    &&& forall|i: int|
        0 <= i < d.dirs@.len() ==> starts_sep((#[trigger] d.dirs@[i]).path@) == absolute
            && tree_paths_anchored(d.dirs@[i], absolute)
}

/// A well-formed name: nonempty, not beginning with the separator.  The
/// segments of real directory entries are always of this shape.
pub open spec fn wf_name(nm: Seq<char>) -> bool {
    nm.len() > 0 && nm[0] != '/'
}

/// Every segment of every entry is a well-formed name.
pub open spec fn wf_entries(list: Seq<EntryV>) -> bool {
    forall|j: int, k: int|
        0 <= j < list.len() && 0 <= k < list[j].segments.len() ==> wf_name(
            #[trigger] list[j].segments[k],
        )
}

proof fn lemma_wf_sub_entries(list: Seq<EntryV>, depth: int, nm: Seq<char>)
    requires
        wf_entries(list),
    ensures
        wf_entries(sub_entries(list, depth, nm)),
    decreases list.len(),
{
    if list.len() > 0 {
        assert(wf_entries(list.drop_last())) by {
            assert forall|j: int, k: int|
                0 <= j < list.drop_last().len() && 0 <= k
                    < list.drop_last()[j].segments.len() implies wf_name(
                #[trigger] list.drop_last()[j].segments[k],
            ) by {
                assert(list.drop_last()[j] == list[j]);
            }
        }
        lemma_wf_sub_entries(list.drop_last(), depth, nm);
        let rest = sub_entries(list.drop_last(), depth, nm);
        if below_child(list.last(), depth, nm) {
            assert forall|j: int, k: int|
                0 <= j < rest.push(list.last()).len() && 0 <= k < rest.push(
                    list.last(),
                )[j].segments.len() implies wf_name(
                #[trigger] rest.push(list.last())[j].segments[k],
            ) by {
                if j < rest.len() {
                    assert(rest.push(list.last())[j] == rest[j]);
                } else {
                    assert(rest.push(list.last())[j] == list[list.len() - 1]);
                }
            }
        }
    }
}

proof fn lemma_join_head(chain: Seq<Seq<char>>)
    requires
        chain.len() > 0,
        forall|k: int| 0 <= k < chain.len() ==> wf_name(#[trigger] chain[k]),
    ensures
        join_chain(chain).len() > 0,
        join_chain(chain)[0] == chain[0][0],
    decreases chain.len(),
{
    if chain.len() > 1 {
        assert forall|k: int| 0 <= k < chain.drop_last().len() implies wf_name(
            #[trigger] chain.drop_last()[k],
        ) by {
            assert(chain.drop_last()[k] == chain[k]);
        }
        lemma_join_head(chain.drop_last());
        assert(chain.drop_last()[0] == chain[0]);
    }
}

/// Absolute-mode invariant: in a tree built from well-formed entries,
/// every emitted path below the root begins with the separator exactly
/// when absolute mode is on.  (The root's own path stands apart: the
/// bare separator in absolute mode, empty otherwise.)
pub proof fn lemma_absolute_mode(
    d: Directory,
    chain: Seq<Seq<char>>,
    list: Seq<EntryV>,
    absolute: bool,
)
    requires
        represents(d, chain, list, absolute),
        wf_entries(list),
        forall|k: int| 0 <= k < chain.len() ==> wf_name(#[trigger] chain[k]),
    ensures
        tree_paths_anchored(d, absolute),
    decreases d,
{
    let depth = chain.len() as int;
    assert forall|i: int| 0 <= i < d.files@.len() implies starts_sep(
        (#[trigger] d.files@[i]).path@,
    ) == absolute by {
        let f = d.files@[i];
        let j = choose|j: int| 0 <= j < list.len() && is_file_entry(#[trigger] list[j], depth, f.name@);
        assert(wf_name(list[j].segments[depth]));
        let c2 = chain.push(f.name@);
        assert forall|k: int| 0 <= k < c2.len() implies wf_name(#[trigger] c2[k]) by {
            if k < chain.len() {
                assert(c2[k] == chain[k]);
            }
        }
        lemma_join_head(c2);
        if absolute {
            assert(f.path@[0] == '/');
        } else {
            assert(f.path@ == join_chain(c2));
            assert(f.path@[0] == c2[0][0]);
            assert(c2[0][0] != '/');
        }
    }
    assert forall|i: int| 0 <= i < d.dirs@.len() implies starts_sep(
        (#[trigger] d.dirs@[i]).path@,
    ) == absolute && tree_paths_anchored(d.dirs@[i], absolute) by {
        let c = d.dirs@[i];
        let j = choose|j: int| 0 <= j < list.len() && is_dir_entry(#[trigger] list[j], depth, c.name@);
        assert(wf_name(list[j].segments[depth]));
        let c2 = chain.push(c.name@);
        assert forall|k: int| 0 <= k < c2.len() implies wf_name(#[trigger] c2[k]) by {
            if k < chain.len() {
                assert(c2[k] == chain[k]);
            }
        }
        lemma_join_head(c2);
        if absolute {
            assert(c.path@[0] == '/');
        } else {
            assert(c.path@ == join_chain(c2) + seq!['/']);
            assert(c.path@[0] == c2[0][0]);
            assert(c2[0][0] != '/');
        }
        lemma_wf_sub_entries(list, depth, c.name@);
        lemma_absolute_mode(c, c2, sub_entries(list, depth, c.name@), absolute);
    }
}

/// Why a walk could not produce a tree: an entry's path could not be
/// expressed relative to the walked root.  This must not happen for
/// well-formed input; it marks an internal error, not a user-facing one.
#[derive(Debug, Clone, Copy, PartialEq, Eq, Structural)]
pub enum WalkError {
    Relativize,
}

/// Relies on walkdir::WalkDir: iterates over the subtree under `path` in
/// depth-first order, one entry per filesystem object, the root itself
/// included; each entry carries its path relative to `path`, split into
/// segments, and its kind.  Entries the filesystem refuses to read are
/// skipped, as the server treats transient errors as absent files; `None`
/// when an entry's path cannot be expressed relative to `path`.  Which
/// entries come back depends on the disk, so little is promised of them:
/// only that each segment is a real name — nonempty, holding no separator
/// — which holds of every walk.  (Nothing is said of distinctness: names
/// are carried through a lossy text conversion, which can make two
/// distinct on-disk names read the same.)
#[verifier::external_body]
fn walk_entries(path: &str) -> (r: Option<Vec<Entry>>)
    ensures
        r matches Some(entries) ==> wf_entries(entries.deep_view()),
{
    let mut out = Vec::new();
    for item in walkdir::WalkDir::new(path) {
        let Ok(de) = item else { continue };
        let Ok(rel) = de.path().strip_prefix(path) else { return None };
        let segments =
            rel.components().map(|c| c.as_os_str().to_string_lossy().to_string()).collect();
        let ft = de.file_type();
        let kind =
            if ft.is_file() { EntryKind::File } else if ft.is_dir() { EntryKind::Dir } else { EntryKind::Other };
        out.push(Entry { segments, kind });
    }
    Some(out)
}

/// The tree that a walked set of entries describes: the root node, named
/// "/", with everything below it; hidden entries are excluded and every
/// listing names each child once, sorted case-insensitively.
pub fn build_tree(entries: &Vec<Entry>, absolute: bool) -> (d: Directory)
    ensures
        d.name@ == "/"@,
        d.path@ == abs_prefix(absolute),
        represents(d, Seq::empty(), entries.deep_view(), absolute),
        tree_no_hidden(d),
        tree_sorted(d),
        tree_distinct(d),
{
    let root_name = String::from_str("/");
    let empty = String::new();
    proof {
        assert(join_chain(Seq::empty()) =~= empty@);
    }
    let mut d = build_node(
        entries,
        0,
        empty.as_str(),
        root_name,
        absolute,
        Ghost(Seq::<Seq<char>>::empty()),
    );
    // the root's own path carries no trailing separator: it is empty, or
    // the bare separator in absolute mode
    let root_path = if absolute {
        String::from_str("/")
    } else {
        String::new()
    };
    proof {
        reveal_strlit("/");
        assert(root_path@ =~= abs_prefix(absolute));
    }
    let ghost before = d;
    d.path = root_path;
    proof {
        assert(d.files == before.files && d.dirs == before.dirs);
        assert(represents(d, Seq::empty(), entries.deep_view(), absolute));
        lemma_hidden_excluded(d, Seq::empty(), entries.deep_view(), absolute);
        lemma_listings_sorted(d, Seq::empty(), entries.deep_view(), absolute);
        lemma_listings_distinct(d, Seq::empty(), entries.deep_view(), absolute);
    }
    d
}

/// Walks the given path, returning the site tree of the subtree under it.
///
/// The tree lists, for some set of entries the filesystem reported, every
/// non-hidden file and directory, each once and sorted case-insensitively,
/// with hidden entries and everything beneath a hidden directory left out;
/// every path in the tree begins with the separator exactly when
/// `absolute` holds (the root's own path is then the bare separator, and
/// empty otherwise).  An unreadable root yields the empty tree, not an
/// error.
pub fn walk_dir(path: &str, absolute: bool) -> (r: Result<Directory, WalkError>)
    ensures
        r matches Ok(d) ==> d.name@ == "/"@ && d.path@ == abs_prefix(absolute)
            && tree_no_hidden(d) && tree_sorted(d) && tree_distinct(d) && tree_paths_anchored(
            d,
            absolute,
        ) && exists|entries: Seq<EntryV>| represents(d, Seq::empty(), entries, absolute),
{
    match walk_entries(path) {
        Some(entries) => {
            let d = build_tree(&entries, absolute);
            proof {
                let witness = entries.deep_view();
                assert(represents(d, Seq::empty(), witness, absolute));
                lemma_absolute_mode(d, Seq::empty(), witness, absolute);
            }
            Ok(d)
        },
        None => Err(WalkError::Relativize),
    }
}

impl Directory {
    /// An empty directory node with the given display name and path.
    pub fn new(name: &str, path: &str) -> (d: Directory)
        ensures
            d.name@ == name@,
            d.path@ == path@,
            d.dirs@.len() == 0,
            d.files@.len() == 0,
    {
        Directory {
            name: name.to_owned(),
            path: path.to_owned(),
            dirs: Vec::new(),
            files: Vec::new(),
        }
    }
}

impl File {
    /// A file entry with the given name and path; the media type is left
    /// for later content-type inference.
    pub fn new(name: &str, path: String) -> (f: File)
        ensures
            f.name@ == name@,
            f.path == path,
            f.media_type is None,
    {
        File { name: name.to_owned(), path, media_type: None }
    }
}

/// Checks if a name starts with ".".
pub fn is_hidden(name: &str) -> (r: bool)
    ensures
        r == hidden_name(name@),
{
    name.unicode_len() > 0 && name.get_char(0) == '.'
}

/// Prepends a `/` so the path is "absolute".
pub fn make_abs(a: &str) -> (r: String)
    ensures
        r@ == seq!['/'] + a@,
{
    let mut built = String::from_str("/");
    proof {
        reveal_strlit("/");
        assert(built@ =~= seq!['/']);
    }
    built.append(a);
    built
}

/// Adds a trailing slash to a directory path.
pub fn format_dir(a: &mut String)
    ensures
        final(a)@ == old(a)@ + seq!['/'],
{
    let ghost before = a@;
    a.append("/");
    proof {
        reveal_strlit("/");
        assert(a@ =~= before + seq!['/']);
    }
}

} // verus!
