//! Handlers for the requests that need more than streaming: content
//! negotiation, the markdown and directory flows, and the routing
//! decision itself.
//!
//! The surrounding binary performs what the decisions here call for —
//! reading files, rendering templates, streaming bytes — and hands the
//! outcomes back as plain values.

use vstd::prelude::*;

use crate::response::{
    Reply, is_not_found, is_not_implemented, is_server_error, is_not_acceptable,
    is_method_not_allowed, is_html_reply, is_plain_ok, not_found, not_implemented, server_error,
    not_acceptable, method_not_allowed, send_html, plain_ok,
};
use crate::text::{contains_sub, contains_sub_exec, split_on, split_on_exec, first_index_of,
    lemma_first_index_of, str_eq};
use crate::uri::Resolved;

verus! {

/// The response formats a client can ask for.
#[derive(Debug, Clone, Copy, PartialEq, Eq, Structural)]
pub enum AcceptFormat {
    Html,
    PartialHtml,
    Json,
    Any,
}

/// The two headers negotiation reads, as plain values: the partial-request
/// marker (any value counts as set) and the `Accept` header.
#[derive(Debug)]
pub struct RequestHeaders {
    pub x_partial: Option<String>,
    pub accept: Option<String>,
}

/// The view of an optional header value.
pub open spec fn opt_str_view(o: Option<String>) -> Option<Seq<char>> {
    match o {
        Some(s) => Some(s@),
        None => None,
    }
}

/// The format one media-range token asks for: `json` anywhere in the
/// token wins, then `html`, then the full wildcard; any other token is
/// dropped.
pub open spec fn token_format(t: Seq<char>) -> Option<AcceptFormat> {
    if contains_sub(t, "json"@) {
        Some(AcceptFormat::Json)
    } else if contains_sub(t, "html"@) {
        Some(AcceptFormat::Html)
    } else if contains_sub(t, "*/*"@) {
        Some(AcceptFormat::Any)
    } else {
        None
    }
}

/// The formats of a list of tokens, in order, dropped tokens omitted;
/// duplicates are kept.
pub open spec fn formats_of(toks: Seq<Seq<char>>) -> Seq<AcceptFormat>
    decreases toks.len(),
{
    if toks.len() == 0 {
        Seq::empty()
    } else {
        let rest = formats_of(toks.drop_first());
        match token_format(toks[0]) {
            Some(f) => seq![f] + rest,
            None => rest,
        }
    }
}

/// The ordered formats a request asks for: the partial marker, whatever
/// its value, short-circuits to the partial fragment alone; otherwise the
/// `Accept` header is split on commas and each token mapped in order; a
/// request with neither accepts anything.
pub open spec fn spec_preferred(
    x_partial: Option<Seq<char>>,
    accept: Option<Seq<char>>,
) -> Seq<AcceptFormat> {
    if x_partial is Some {
        seq![AcceptFormat::PartialHtml]
    } else {
        match accept {
            Some(a) => formats_of(split_on(a, ',')),
            None => seq![AcceptFormat::Any],
        }
    }
}

/// Negotiation short-circuit: a request carrying the partial marker
/// always yields exactly the partial-fragment preference, whatever the
/// `Accept` header holds.
pub proof fn lemma_negotiation_short_circuit(partial: Seq<char>, accept: Option<Seq<char>>)
    ensures
        spec_preferred(Some(partial), accept) == seq![AcceptFormat::PartialHtml],
{
}

/// Negotiation default: a request with no `Accept` header and no partial
/// marker yields exactly the wildcard preference, which the dispatcher
/// treats as a full render.
pub proof fn lemma_negotiation_default()
    ensures
        spec_preferred(None, None) == seq![AcceptFormat::Any],
        first_handled(seq![AcceptFormat::Any]) == Some(false),
{
    let prefs = seq![AcceptFormat::Any];
    assert(prefs[0] == AcceptFormat::Any);
}

/// Determines the formats the request asks for, in its order of
/// preference.
pub fn preferred_format(headers: &RequestHeaders) -> (r: Vec<AcceptFormat>)
    ensures
        r@ == spec_preferred(opt_str_view(headers.x_partial), opt_str_view(headers.accept)),
{
    if headers.x_partial.is_some() {
        let mut r: Vec<AcceptFormat> = Vec::new();
        r.push(AcceptFormat::PartialHtml);
        proof {
            assert(r@ =~= seq![AcceptFormat::PartialHtml]);
        }
        return r;
    }
    match &headers.accept {
        Some(a) => {
            let toks = split_on_exec(a.as_str(), ',');
            let ghost tv = toks.deep_view();
            let mut out: Vec<AcceptFormat> = Vec::new();
            let mut i: usize = 0;
            proof {
                assert(tv.skip(0) =~= tv);
            }
            while i < toks.len()
                invariant
                    i <= toks@.len(),
                    tv == toks.deep_view(),
                    tv.len() == toks@.len(),
                    out@ + formats_of(tv.skip(i as int)) == formats_of(tv),
                decreases toks@.len() - i,
            {
                let t = &toks[i];
                proof {
                    assert(tv.skip(i as int)[0] == tv[i as int]);
                    assert(tv.skip(i as int).drop_first() =~= tv.skip(i + 1));
                    assert(tv[i as int] == toks@[i as int]@);
                }
                if contains_sub_exec(t.as_str(), "json") {
                    out.push(AcceptFormat::Json);
                } else if contains_sub_exec(t.as_str(), "html") {
                    out.push(AcceptFormat::Html);
                } else if contains_sub_exec(t.as_str(), "*/*") {
                    out.push(AcceptFormat::Any);
                }
                i = i + 1;
            }
            proof {
                assert(tv.skip(tv.len() as int) =~= Seq::<Seq<char>>::empty());
                assert(out@ =~= formats_of(tv));
            }
            out
        },
        None => {
            let mut r: Vec<AcceptFormat> = Vec::new();
            r.push(AcceptFormat::Any);
            proof {
                assert(r@ =~= seq![AcceptFormat::Any]);
            }
            r
        },
    }
}

/// The first preference the dispatcher handles, walking the list in
/// order: `Some(true)` for a partial fragment, `Some(false)` for a full
/// page (`html` and the wildcard alike); `json` is passed over as
/// unhandled, and `None` means nothing in the list can be served.
pub open spec fn first_handled(prefs: Seq<AcceptFormat>) -> Option<bool>
    decreases prefs.len(),
{
    if prefs.len() == 0 {
        None
    } else {
        match prefs[0] {
            AcceptFormat::PartialHtml => Some(true),
            AcceptFormat::Html => Some(false),
            AcceptFormat::Any => Some(false),
            AcceptFormat::Json => first_handled(prefs.drop_first()),
        }
    }
}

fn first_handled_exec(prefs: &Vec<AcceptFormat>) -> (r: Option<bool>)
    ensures
        r == first_handled(prefs@),
{
    let mut i: usize = 0;
    proof {
        assert(prefs@.skip(0) =~= prefs@);
    }
    while i < prefs.len()
        invariant
            i <= prefs@.len(),
            first_handled(prefs@) == first_handled(prefs@.skip(i as int)),
        decreases prefs@.len() - i,
    {
        proof {
            assert(prefs@.skip(i as int)[0] == prefs@[i as int]);
            assert(prefs@.skip(i as int).drop_first() =~= prefs@.skip(i + 1));
        }
        match prefs[i] {
            AcceptFormat::PartialHtml => {
                return Some(true);
            },
            AcceptFormat::Html => {
                return Some(false);
            },
            AcceptFormat::Any => {
                return Some(false);
            },
            AcceptFormat::Json => {
                i = i + 1;
            },
        }
    }
    proof {
        assert(prefs@.skip(prefs@.len() as int).len() == 0);
    }
    None
}

/// The request methods the server tells apart.
#[derive(Debug, Clone, Copy, PartialEq, Eq, Structural)]
pub enum Method {
    Get,
    Head,
    Other,
}

/// What the dispatcher decides to do with one request.
#[derive(Debug)]
pub enum Action {
    File(String),
    Markdown(String),
    Directory(String),
    Respond(Reply),
}

/// Routes one request: a path no root holds is not found, whatever the
/// method; of the rest, only GET is served — HEAD is unimplemented and
/// any other method not allowed; a resolved GET goes to the handler of
/// its target kind, which carries the resolved path.
pub fn route(method: Method, resolved: Option<Resolved>) -> (a: Action)
    ensures
        resolved is None ==> (a matches Action::Respond(rep) && is_not_found(rep)),
        resolved is Some && method is Head ==> (a matches Action::Respond(rep)
            && is_not_implemented(rep)),
        resolved is Some && method is Other ==> (a matches Action::Respond(rep)
            && is_method_not_allowed(rep)),
        method is Get ==> match resolved {
            Some(Resolved::File(p)) => a matches Action::File(q) && q == p,
            Some(Resolved::Markdown(p)) => a matches Action::Markdown(q) && q == p,
            Some(Resolved::Directory(p)) => a matches Action::Directory(q) && q == p,
            None => a matches Action::Respond(rep) && is_not_found(rep),
        },
{
    match resolved {
        None => Action::Respond(not_found()),
        Some(target) => match method {
            Method::Get => match target {
                Resolved::File(p) => Action::File(p),
                Resolved::Markdown(p) => Action::Markdown(p),
                Resolved::Directory(p) => Action::Directory(p),
            },
            Method::Head => Action::Respond(not_implemented()),
            Method::Other => Action::Respond(method_not_allowed()),
        },
    }
}

/// What a markdown transform returns for a given text.
pub uninterp spec fn html_of(text: Seq<char>) -> Seq<char>;

/// Relies on pulldown_cmark: parses the text as markdown — tables,
/// footnotes, strikethrough, task lists and heading attributes on, smart
/// punctuation off so literal punctuation passes through — and writes it
/// out as HTML, a function of the text alone.
#[verifier::external_body]
fn markdown_to_html(text: &str) -> (r: String)
    ensures
        r@ == html_of(text@),
{
    let options = pulldown_cmark::Options::ENABLE_TABLES.union(
        pulldown_cmark::Options::ENABLE_FOOTNOTES,
    ).union(pulldown_cmark::Options::ENABLE_STRIKETHROUGH).union(
        pulldown_cmark::Options::ENABLE_TASKLISTS,
    ).union(pulldown_cmark::Options::ENABLE_HEADING_ATTRIBUTES);
    let parser = pulldown_cmark::Parser::new_ext(text, options);
    let mut out = String::new();
    pulldown_cmark::html::push_html(&mut out, parser);
    out
}

/// How a markdown request proceeds.
#[derive(Debug)]
pub enum MarkdownStep {
    /// The response is finished: refused, not found, or a bare fragment.
    Respond(Reply),
    /// The transformed HTML still needs the full page template around it,
    /// with a freshly refreshed site tree as its navigation context.
    RenderPage(String),
}

/// Serves a markdown document, the file's contents already read by the
/// caller: a request no format of which is handled is refused before
/// anything else; then a file that could not be read is not found; a
/// partial request gets the transformed HTML as a bare fragment, and a
/// full request hands the HTML on for page rendering.
pub fn markdown(contents: Option<String>, headers: &RequestHeaders) -> (s: MarkdownStep)
    ensures
        ({
            let prefs = spec_preferred(
                opt_str_view(headers.x_partial),
                opt_str_view(headers.accept),
            );
            match first_handled(prefs) {
                None => s matches MarkdownStep::Respond(rep) && is_not_acceptable(rep),
                Some(partial) => match contents {
                    None => s matches MarkdownStep::Respond(rep) && is_not_found(rep),
                    Some(c) => if partial {
                        s matches MarkdownStep::Respond(rep) && is_html_reply(rep, html_of(c@))
                    } else {
                        s matches MarkdownStep::RenderPage(h) && h@ == html_of(c@)
                    },
                },
            }
        }),
{
    let prefs = preferred_format(headers);
    match first_handled_exec(&prefs) {
        None => MarkdownStep::Respond(not_acceptable()),
        Some(partial) => match contents {
            None => MarkdownStep::Respond(not_found()),
            Some(c) => {
                let html = markdown_to_html(c.as_str());
                if partial {
                    MarkdownStep::Respond(send_html(html))
                } else {
                    MarkdownStep::RenderPage(html)
                }
            },
        },
    }
}

/// The templates the server renders.
#[derive(Debug, Clone, Copy, PartialEq, Eq, Structural)]
pub enum Template {
    MarkdownPage,
    DirectoryPage,
    DirectoryChunk,
}

/// The name under which the template set knows each template.
pub fn template_name(t: Template) -> (r: String)
    ensures
        t is MarkdownPage ==> r@ == "markdown.html"@,
        t is DirectoryPage ==> r@ == "directory.html"@,
        t is DirectoryChunk ==> r@ == "directory-chunk.html"@,
{
    match t {
        Template::MarkdownPage => String::from_str("markdown.html"),
        Template::DirectoryPage => String::from_str("directory.html"),
        Template::DirectoryChunk => String::from_str("directory-chunk.html"),
    }
}

/// How a directory request proceeds.
#[derive(Debug)]
pub enum DirectoryStep {
    /// The response is finished: nothing the client accepts is served.
    Respond(Reply),
    /// Render the named template; the shared site tree is refreshed first
    /// exactly when `refresh` holds.
    Render { template: Template, refresh: bool },
}

/// Serves a directory listing: a partial request renders the listing
/// fragment without touching the shared site tree; a full request
/// refreshes the tree and renders the full listing page; a request with
/// no handled format is refused.
pub fn directory(headers: &RequestHeaders) -> (s: DirectoryStep)
    ensures
        ({
            let prefs = spec_preferred(
                opt_str_view(headers.x_partial),
                opt_str_view(headers.accept),
            );
            match first_handled(prefs) {
                None => s matches DirectoryStep::Respond(rep) && is_not_acceptable(rep),
                Some(partial) => s matches DirectoryStep::Render { template, refresh }
                    && template == (if partial {
                    Template::DirectoryChunk
                } else {
                    Template::DirectoryPage
                }) && refresh == !partial,
            }
        }),
{
    let prefs = preferred_format(headers);
    match first_handled_exec(&prefs) {
        None => DirectoryStep::Respond(not_acceptable()),
        Some(partial) => {
            if partial {
                DirectoryStep::Render { template: Template::DirectoryChunk, refresh: false }
            } else {
                DirectoryStep::Render { template: Template::DirectoryPage, refresh: true }
            }
        },
    }
}

/// The media type that a guess from the path's extension yields, as its
/// `type/subtype` essence.
pub uninterp spec fn mime_guess_of(path: Seq<char>) -> Option<Seq<char>>;

/// Relies on mime_guess::from_path: the media type guessed from the
/// path's extension, a function of the path alone; nothing for an
/// extension the registry does not know.
#[verifier::external_body]
fn guess_mime(path: &str) -> (r: Option<String>)
    ensures
        r is Some <==> mime_guess_of(path@) is Some,
        r matches Some(m) ==> (mime_guess_of(path@) matches Some(v) && m@ == v),
{
    mime_guess::from_path(path).first_raw().map(|s| s.to_string())
}

/// The part of a media type before the separator.
pub open spec fn mime_top(m: Seq<char>) -> Seq<char> {
    m.take(first_index_of(m, '/') as int)
}

/// The part of a media type after the separator (empty when there is
/// none).
pub open spec fn mime_sub(m: Seq<char>) -> Seq<char> {
    if first_index_of(m, '/') < m.len() {
        m.skip(first_index_of(m, '/') as int + 1)
    } else {
        Seq::empty()
    }
}

/// Splits a media type into its top type and subtype.
fn split_mime(m: &str) -> (r: (String, String))
    ensures
        r.0@ == mime_top(m@),
        r.1@ == mime_sub(m@),
{
    let len = m.unicode_len();
    let mut i: usize = 0;
    let mut found = false;
    while i < len && !found
        invariant
            i <= len,
            len == m@.len(),
            found ==> i < len && m@[i as int] == '/',
            forall|j: int| 0 <= j < i ==> m@[j] != '/',
        decreases len - i + (if found {
            0int
        } else {
            1int
        }),
    {
        if m.get_char(i) == '/' {
            found = true;
        } else {
            i = i + 1;
        }
    }
    proof {
        lemma_first_index_of(m@, '/');
        if found {
            let fi = first_index_of(m@, '/') as int;
            if fi < i {
                assert(m@[fi] == '/');
                assert(false);
            }
            if fi > i {
                assert(m@[i as int] != '/');
                assert(false);
            }
        } else {
            assert(i == len);
            assert(first_index_of(m@, '/') >= len);
        }
    }
    if found {
        let top = m.substring_char(0, i).to_owned();
        let sub = m.substring_char(i + 1, len).to_owned();
        proof {
            assert(top@ =~= mime_top(m@));
            assert(sub@ =~= mime_sub(m@));
        }
        (top, sub)
    } else {
        let top = m.to_owned();
        let sub = String::new();
        proof {
            assert(top@ =~= mime_top(m@));
        }
        (top, sub)
    }
}

/// The path with the given root stripped off its front, when it is a
/// prefix.
pub open spec fn strip_one(path: Seq<char>, root: Seq<char>) -> Option<Seq<char>> {
    if path.len() >= root.len() && path.take(root.len() as int) == root {
        Some(path.skip(root.len() as int))
    } else {
        None
    }
}

/// The request path that reaches `path`: the path with whichever
/// configured root prefixes it stripped off, the primary root tried
/// first; nothing when the path lies under neither root.
pub open spec fn strip_spec(path: Seq<char>, root: Seq<char>, stat: Seq<char>) -> Option<
    Seq<char>,
> {
    if strip_one(path, root) is Some {
        strip_one(path, root)
    } else {
        strip_one(path, stat)
    }
}

fn strip_prefix_exec(path: &str, root: &str) -> (r: Option<String>)
    ensures
        opt_str_view(r) == strip_one(path@, root@),
{
    if crate::text::starts_with_exec(path, root) {
        let plen = path.unicode_len();
        let rlen = root.unicode_len();
        Some(path.substring_char(rlen, plen).to_owned())
    } else {
        None
    }
}

/// Strips whichever configured root prefixes the path.
pub fn strip_path(path: &str, rootdir: &str, staticdir: &str) -> (r: Option<String>)
    ensures
        opt_str_view(r) == strip_spec(path@, rootdir@, staticdir@),
{
    match strip_prefix_exec(path, rootdir) {
        Some(s) => Some(s),
        None => strip_prefix_exec(path, staticdir),
    }
}

/// How a plain-file request proceeds.
#[derive(Debug)]
pub enum FileStep {
    /// The response is finished.
    Respond(Reply),
    /// Stream the file's bytes, with the content type inferred from the
    /// extension.
    Stream,
}

/// How a partial request for a plain file is answered, given what the
/// media-type guess said of the path: an image or a PDF comes back as
/// markup embedding the file's request path, a video or another
/// application as a short note; an unknown or any other type falls back
/// to streaming, and a path outside both roots is not found.
pub open spec fn wrapped_step_ok(
    s: FileStep,
    path: Seq<char>,
    root: Seq<char>,
    stat: Seq<char>,
) -> bool {
    match strip_spec(path, root, stat) {
        None => s matches FileStep::Respond(rep) && is_not_found(rep),
        Some(src) => match mime_guess_of(path) {
            None => s is Stream,
            Some(m) => {
                let top = mime_top(m);
                if top == "image"@ {
                    s matches FileStep::Respond(rep) && is_html_reply(
                        rep,
                        "<img src=\""@ + src + "\" />"@,
                    )
                } else if top == "video"@ {
                    s matches FileStep::Respond(rep) && is_plain_ok(rep, "this is a video"@)
                } else if top == "application"@ && mime_sub(m) == "pdf"@ {
                    s matches FileStep::Respond(rep) && is_html_reply(
                        rep,
                        "<iframe src=\""@ + src + "\" />"@,
                    )
                } else if top == "application"@ {
                    s matches FileStep::Respond(rep) && is_plain_ok(rep, "some application"@)
                } else {
                    s is Stream
                }
            },
        },
    }
}

fn img_markup(src: &str) -> (r: String)
    ensures
        r@ == "<img src=\""@ + src@ + "\" />"@,
{
    let mut r = String::from_str("<img src=\"");
    r.append(src);
    r.append("\" />");
    r
}

fn iframe_markup(src: &str) -> (r: String)
    ensures
        r@ == "<iframe src=\""@ + src@ + "\" />"@,
{
    let mut r = String::from_str("<iframe src=\"");
    r.append(src);
    r.append("\" />");
    r
}

/// Wraps a plain file in markup for embedding, as [`wrapped_step_ok`]
/// lays out: an image or a PDF becomes markup naming the file's request
/// path, a video or another application a short note.  Dispatch never
/// calls it — a static target is streamed whatever the request accepts —
/// so this stands beside the dispatch path for a caller that wants the
/// embeddable form.
pub fn wrapped_file(path: &str, rootdir: &str, staticdir: &str) -> (s: FileStep)
    ensures
        wrapped_step_ok(s, path@, rootdir@, staticdir@),
{
    let stripped = match strip_path(path, rootdir, staticdir) {
        Some(s) => s,
        None => {
            return FileStep::Respond(not_found());
        },
    };
    match guess_mime(path) {
        None => FileStep::Stream,
        Some(m) => {
            let (top, sub) = split_mime(m.as_str());
            if str_eq(top.as_str(), "image") {
                FileStep::Respond(send_html(img_markup(stripped.as_str())))
            } else if str_eq(top.as_str(), "video") {
                FileStep::Respond(plain_ok("this is a video"))
            } else if str_eq(top.as_str(), "application") {
                if str_eq(sub.as_str(), "pdf") {
                    FileStep::Respond(send_html(iframe_markup(stripped.as_str())))
                } else {
                    FileStep::Respond(plain_ok("some application"))
                }
            } else {
                FileStep::Stream
            }
        },
    }
}

/// Serves a plain file: its bytes are streamed verbatim, with the content
/// type inferred from the extension by the sender, whatever formats the
/// request asks for — a static target takes no other representation.
pub fn file(path: &str, headers: &RequestHeaders) -> (s: FileStep)
    ensures
        s is Stream,
{
    FileStep::Stream
}

/// Turns the outcome of a template render into the response: the
/// rendered page on success, an internal error carrying the given
/// message when the template failed.
pub fn rendered_page_reply(rendered: Option<String>, err_msg: &str) -> (r: Reply)
    ensures
        rendered matches Some(h) ==> is_html_reply(r, h@),
        rendered is None ==> is_server_error(r, err_msg@),
{
    match rendered {
        Some(h) => send_html(h),
        None => server_error(err_msg),
    }
}

} // verus!
