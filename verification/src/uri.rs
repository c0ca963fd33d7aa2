//! URI lookup: maps the path of a request to a target under the
//! configured roots.
//!
//! A path is percent-decoded, stripped of its leading separator and held
//! against both roots: the primary content root wins on any match, and
//! within it a directory wins over a file; only a file is ever served
//! from the static fallback root.

use vstd::prelude::*;

use crate::text::{split_on, split_on_exec, after_last, after_last_exec, str_eq};

verus! {

/// What a request path resolves to.
#[derive(Debug)]
pub enum Resolved {
    File(String),
    Markdown(String),
    Directory(String),
}

impl Resolved {
    /// The filesystem path inside any variant.
    pub fn path(&self) -> (p: &String)
        ensures
            match self {
                Resolved::File(q) => p == q,
                Resolved::Markdown(q) => p == q,
                Resolved::Directory(q) => p == q,
            },
    {
        match self {
            Resolved::File(p) => p,
            Resolved::Markdown(p) => p,
            Resolved::Directory(p) => p,
        }
    }
}

/// What probing one path showed.
#[derive(Debug, Clone, Copy, PartialEq, Eq, Structural)]
pub enum PathKind {
    Dir,
    File,
    Missing,
}

/// Relies on walkdir::WalkDir with max_depth 0 and followed links: its
/// single entry is the given path itself, telling a directory from a
/// file; a path that cannot be read counts as missing.  What comes back
/// depends on the disk, so nothing is promised of it.
#[verifier::external_body]
fn probe_path(path: &str) -> (k: PathKind) {
    match walkdir::WalkDir::new(path).follow_links(true).max_depth(0).into_iter().next() {
        Some(Ok(e)) => {
            if e.file_type().is_dir() {
                PathKind::Dir
            } else if e.file_type().is_file() {
                PathKind::File
            } else {
                PathKind::Missing
            }
        },
        _ => PathKind::Missing,
    }
}

/// The percent-decoding of a request path.
pub uninterp spec fn decoded_of(s: Seq<char>) -> Seq<char>;

/// Relies on url_escape::decode: percent-decodes the string, a function
/// of its characters alone; a string without the escape character comes
/// back unchanged.
#[verifier::external_body]
fn decode_url(s: &str) -> (r: String)
    ensures
        r@ == decoded_of(s@),
        !s@.contains('%') ==> r@ == s@,
{
    url_escape::decode(s).into_owned()
}

/// Strips the leading separator from a decoded request path; a path that
/// does not begin with the separator is rejected, since the transport
/// should never produce one.
pub fn force_relative(uri: &str) -> (r: Option<String>)
    ensures
        match r {
            Some(rel) => uri@.len() >= 1 && uri@[0] == '/' && rel@ == uri@.skip(1),
            None => !(uri@.len() >= 1 && uri@[0] == '/'),
        },
{
    let len = uri.unicode_len();
    if len >= 1 && uri.get_char(0) == '/' {
        Some(uri.substring_char(1, len).to_owned())
    } else {
        None
    }
}

/// Whether a relative path holds a parent-directory segment, with which
/// it could escape the root it is joined under.
pub open spec fn has_traversal(rel: Seq<char>) -> bool {
    split_on(rel, '/').contains(seq!['.', '.'])
}

fn has_traversal_exec(rel: &str) -> (r: bool)
    ensures
        r == has_traversal(rel@),
{
    let parts = split_on_exec(rel, '/');
    let mut i: usize = 0;
    while i < parts.len()
        invariant
            i <= parts@.len(),
            parts.deep_view() == split_on(rel@, '/'),
            forall|k: int| 0 <= k < i ==> (#[trigger] parts.deep_view()[k]) != seq!['.', '.'],
        decreases parts@.len() - i,
    {
        let hit = str_eq(parts[i].as_str(), "..");
        proof {
            reveal_strlit("..");
            assert(".."@ =~= seq!['.', '.']);
        }
        if hit {
            proof {
                assert(parts.deep_view()[i as int] == seq!['.', '.']);
            }
            return true;
        }
        i = i + 1;
    }
    proof {
        if split_on(rel@, '/').contains(seq!['.', '.']) {
            let k = choose|k: int|
                0 <= k < split_on(rel@, '/').len() && split_on(rel@, '/')[k] == seq!['.', '.'];
            assert(parts.deep_view()[k] == seq!['.', '.']);
        }
    }
    false
}

/// The file's name, after the last separator, carries the
/// (case-sensitive) `.md` extension: it ends in `.md` with at least one
/// character before the dot.
pub open spec fn has_md_ext(path: Seq<char>) -> bool {
    let name = after_last(path, '/');
    name.len() >= 4 && name.subrange(name.len() - 3, name.len() as int) == seq!['.', 'm', 'd']
}

fn has_md_ext_exec(path: &str) -> (r: bool)
    ensures
        r == has_md_ext(path@),
{
    let name = after_last_exec(path, '/');
    let n = name.as_str().unicode_len();
    if n < 4 {
        return false;
    }
    let r = name.as_str().get_char(n - 3) == '.' && name.as_str().get_char(n - 2) == 'm'
        && name.as_str().get_char(n - 1) == 'd';
    proof {
        let nv = after_last(path@, '/');
        if r {
            assert(nv.subrange(nv.len() - 3, nv.len() as int) =~= seq!['.', 'm', 'd']);
        } else {
            assert(nv.subrange(nv.len() - 3, nv.len() as int)[0] == nv[nv.len() - 3]);
            assert(nv.subrange(nv.len() - 3, nv.len() as int)[1] == nv[nv.len() - 2]);
            assert(nv.subrange(nv.len() - 3, nv.len() as int)[2] == nv[nv.len() - 1]);
        }
    }
    r
}

/// The path `rel` joined under `root`.
pub open spec fn joined(root: Seq<char>, rel: Seq<char>) -> Seq<char> {
    root + seq!['/'] + rel
}

fn join_under(root: &str, rel: &str) -> (p: String)
    ensures
        p@ == joined(root@, rel@),
{
    let mut p = root.to_owned();
    p.append("/");
    p.append(rel);
    proof {
        reveal_strlit("/");
        assert(p@ =~= root@ + seq!['/'] + rel@);
    }
    p
}

/// The decision at the heart of resolution, over what the two probes
/// showed: a directory under the primary root is a listing; a file under
/// it is a markdown document exactly when its name carries the `.md`
/// extension, and a plain file otherwise — whatever the fallback root
/// holds; only when the primary root has no match does a file under the
/// fallback root answer, and a fallback directory never does.
pub fn classify(primary: String, kind: PathKind, fallback: String, fallback_is_file: bool) -> (r:
    Option<Resolved>)
    ensures
        kind is Dir ==> (r matches Some(Resolved::Directory(p)) && p == primary),
        kind is File && has_md_ext(primary@) ==> (r matches Some(Resolved::Markdown(p)) && p
            == primary),
        kind is File && !has_md_ext(primary@) ==> (r matches Some(Resolved::File(p)) && p
            == primary),
        kind is Missing && fallback_is_file ==> (r matches Some(Resolved::File(p)) && p
            == fallback),
        kind is Missing && !fallback_is_file ==> r is None,
{
    match kind {
        PathKind::Dir => Some(Resolved::Directory(primary)),
        PathKind::File => {
            if has_md_ext_exec(primary.as_str()) {
                Some(Resolved::Markdown(primary))
            } else {
                Some(Resolved::File(primary))
            }
        },
        PathKind::Missing => {
            if fallback_is_file {
                Some(Resolved::File(fallback))
            } else {
                None
            }
        },
    }
}

/// Maps a request URI path to a target under the configured roots.
///
/// The path is percent-decoded first.  One that does not begin with the
/// separator, or that carries a parent-directory segment, resolves to
/// nothing, so resolution can never escape the roots.  Otherwise the
/// relative path is joined under `rootdir` and probed, and only on a miss
/// there is it tried as a file under `staticdir`, as [`classify`]
/// decides.
pub fn resolve(uri_path: &str, rootdir: &str, staticdir: &str) -> (r: Option<Resolved>)
    ensures
        ({
            let dec = decoded_of(uri_path@);
            let rel = dec.skip(1);
            &&& !(dec.len() >= 1 && dec[0] == '/') ==> r is None
            &&& has_traversal(rel) ==> r is None
            &&& r matches Some(Resolved::Directory(p)) ==> p@ == joined(rootdir@, rel)
            &&& r matches Some(Resolved::Markdown(p)) ==> p@ == joined(rootdir@, rel)
                && has_md_ext(p@)
            &&& r matches Some(Resolved::File(p)) ==> (p@ == joined(rootdir@, rel) && !has_md_ext(
                p@,
            )) || p@ == joined(staticdir@, rel)
        }),
{
    let decoded = decode_url(uri_path);
    let rel = match force_relative(decoded.as_str()) {
        Some(rel) => rel,
        None => {
            return None;
        },
    };
    if has_traversal_exec(rel.as_str()) {
        return None;
    }
    let primary = join_under(rootdir, rel.as_str());
    let kind = probe_path(primary.as_str());
    let fallback = join_under(staticdir, rel.as_str());
    let fallback_is_file = if kind == PathKind::Missing {
        probe_path(fallback.as_str()) == PathKind::File
    } else {
        false
    };
    classify(primary, kind, fallback, fallback_is_file)
}

} // verus!
