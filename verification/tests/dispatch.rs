use hyper_markdown_server::handler::{
    Action, DirectoryStep, FileStep, MarkdownStep, Method, RequestHeaders, Template, directory,
    markdown, rendered_page_reply, route, template_name, wrapped_file,
};
use hyper_markdown_server::response::{
    method_not_allowed, not_acceptable, not_found, not_implemented, plain_ok, send_html,
    server_error,
};
use hyper_markdown_server::uri::Resolved;

fn headers(x_partial: Option<&str>, accept: Option<&str>) -> RequestHeaders {
    RequestHeaders {
        x_partial: x_partial.map(|s| s.to_string()),
        accept: accept.map(|s| s.to_string()),
    }
}

#[test]
fn an_unresolved_path_is_not_found_whatever_the_method() {
    for m in [Method::Get, Method::Head, Method::Other] {
        match route(m, None) {
            Action::Respond(rep) => {
                assert_eq!(rep.status, 404);
                assert_eq!(rep.body, "File not found");
            },
            other => panic!("expected a response, got {:?}", other),
        }
    }
}

#[test]
fn head_requests_are_unimplemented() {
    match route(Method::Head, Some(Resolved::File("p".to_string()))) {
        Action::Respond(rep) => assert_eq!(rep.status, 501),
        other => panic!("expected a response, got {:?}", other),
    }
}

#[test]
fn other_methods_are_not_allowed() {
    match route(Method::Other, Some(Resolved::Directory("p".to_string()))) {
        Action::Respond(rep) => {
            assert_eq!(rep.status, 405);
            assert_eq!(rep.body, "Only get requests are possible");
        },
        other => panic!("expected a response, got {:?}", other),
    }
}

#[test]
fn a_get_goes_to_the_handler_of_its_target() {
    assert!(matches!(
        route(Method::Get, Some(Resolved::File("a".to_string()))),
        Action::File(p) if p == "a"
    ));
    assert!(matches!(
        route(Method::Get, Some(Resolved::Markdown("b".to_string()))),
        Action::Markdown(p) if p == "b"
    ));
    assert!(matches!(
        route(Method::Get, Some(Resolved::Directory("c".to_string()))),
        Action::Directory(p) if p == "c"
    ));
}

#[test]
fn a_partial_markdown_request_yields_the_bare_fragment() {
    let step = markdown(Some("# Hi".to_string()), &headers(Some("true"), None));
    match step {
        MarkdownStep::Respond(rep) => {
            assert_eq!(rep.status, 200);
            assert_eq!(rep.content_type.as_deref(), Some("text/html"));
            assert_eq!(rep.body, "<h1>Hi</h1>\n");
        },
        other => panic!("expected a fragment, got {:?}", other),
    }
}

#[test]
fn a_full_markdown_request_hands_the_html_on() {
    let step = markdown(Some("*text*".to_string()), &headers(None, Some("text/html")));
    match step {
        MarkdownStep::RenderPage(html) => assert_eq!(html, "<p><em>text</em></p>\n"),
        other => panic!("expected a page render, got {:?}", other),
    }
}

#[test]
fn smart_punctuation_stays_off() {
    // quotes must pass through literally (escaped), never curled
    let step = markdown(Some("\"q\"".to_string()), &headers(Some("1"), None));
    match step {
        MarkdownStep::Respond(rep) => assert_eq!(rep.body, "<p>\"q\"</p>\n"),
        other => panic!("expected a fragment, got {:?}", other),
    }
}

#[test]
fn an_unreadable_markdown_file_is_not_found() {
    let step = markdown(None, &headers(None, None));
    match step {
        MarkdownStep::Respond(rep) => assert_eq!(rep.status, 404),
        other => panic!("expected not found, got {:?}", other),
    }
}

#[test]
fn a_markdown_request_accepting_nothing_handled_is_refused() {
    let step = markdown(Some("# Hi".to_string()), &headers(None, Some("application/json")));
    match step {
        MarkdownStep::Respond(rep) => {
            assert_eq!(rep.status, 406);
            assert_eq!(rep.body, "Requested format can not be provided");
        },
        other => panic!("expected a refusal, got {:?}", other),
    }
}

#[test]
fn markdown_page_flow_renders_the_template() {
    // the full flow after the dispatcher: transform, render, respond
    let step = markdown(Some("# Title".to_string()), &headers(None, Some("text/html")));
    let html = match step {
        MarkdownStep::RenderPage(html) => html,
        other => panic!("expected a page render, got {:?}", other),
    };
    let mut tera = tera::Tera::default();
    tera.add_raw_template("markdown.html", "<page>{{ content | safe }}</page>").unwrap();
    let mut ctx = tera::Context::new();
    ctx.insert("content", &html);
    let rendered = tera.render(template_name(Template::MarkdownPage).as_str(), &ctx).ok();
    let rep = rendered_page_reply(rendered, "Error in applying template");
    assert_eq!(rep.status, 200);
    assert_eq!(rep.body, "<page><h1>Title</h1>\n</page>");
}

#[test]
fn a_failed_render_is_an_internal_error() {
    let rep = rendered_page_reply(None, "Error in applying template");
    assert_eq!(rep.status, 500);
    assert_eq!(rep.body, "Error in applying template");
}

#[test]
fn a_partial_directory_request_renders_the_chunk_without_a_refresh() {
    let step = directory(&headers(Some("true"), Some("text/html")));
    match step {
        DirectoryStep::Render { template, refresh } => {
            assert_eq!(template, Template::DirectoryChunk);
            assert!(!refresh);
        },
        other => panic!("expected a render, got {:?}", other),
    }
}

#[test]
fn a_full_directory_request_refreshes_and_renders_the_page() {
    let step = directory(&headers(None, None));
    match step {
        DirectoryStep::Render { template, refresh } => {
            assert_eq!(template, Template::DirectoryPage);
            assert!(refresh);
        },
        other => panic!("expected a render, got {:?}", other),
    }
}

#[test]
fn a_directory_request_accepting_nothing_handled_is_refused() {
    let step = directory(&headers(None, Some("application/json")));
    match step {
        DirectoryStep::Respond(rep) => assert_eq!(rep.status, 406),
        other => panic!("expected a refusal, got {:?}", other),
    }
}

#[test]
fn template_names_match_the_template_set() {
    assert_eq!(template_name(Template::MarkdownPage), "markdown.html");
    assert_eq!(template_name(Template::DirectoryPage), "directory.html");
    assert_eq!(template_name(Template::DirectoryChunk), "directory-chunk.html");
}

#[test]
fn a_plain_request_for_a_file_streams_it() {
    let step =
        hyper_markdown_server::handler::file("root/pic.png", &headers(None, Some("text/html")));
    assert!(matches!(step, FileStep::Stream));
}

#[test]
fn a_file_streams_even_under_the_partial_marker() {
    let step = hyper_markdown_server::handler::file("root/pic.png", &headers(Some("1"), None));
    assert!(matches!(step, FileStep::Stream));
}

#[test]
fn wrapping_an_image_names_its_request_path() {
    let step = wrapped_file("root/pic.png", "root", "static");
    match step {
        FileStep::Respond(rep) => {
            assert_eq!(rep.status, 200);
            assert_eq!(rep.content_type.as_deref(), Some("text/html"));
            assert_eq!(rep.body, "<img src=\"/pic.png\" />");
        },
        other => panic!("expected markup, got {:?}", other),
    }
}

#[test]
fn a_partial_request_wraps_a_pdf() {
    let step = wrapped_file("root/doc.pdf", "root", "static");
    match step {
        FileStep::Respond(rep) => assert_eq!(rep.body, "<iframe src=\"/doc.pdf\" />"),
        other => panic!("expected markup, got {:?}", other),
    }
}

#[test]
fn a_partial_request_for_a_video_gets_a_note() {
    let step = wrapped_file("root/movie.mp4", "root", "static");
    match step {
        FileStep::Respond(rep) => {
            assert_eq!(rep.status, 200);
            assert!(rep.content_type.is_none());
            assert_eq!(rep.body, "this is a video");
        },
        other => panic!("expected a note, got {:?}", other),
    }
}

#[test]
fn a_partial_request_for_a_plain_text_file_streams_it() {
    let step = wrapped_file("root/notes.txt", "root", "static");
    assert!(matches!(step, FileStep::Stream));
}

#[test]
fn a_partial_request_for_an_unknown_extension_streams_it() {
    let step = wrapped_file("root/README", "root", "static");
    assert!(matches!(step, FileStep::Stream));
}

#[test]
fn a_file_outside_both_roots_is_not_found() {
    let step = wrapped_file("elsewhere/pic.png", "root", "static");
    match step {
        FileStep::Respond(rep) => assert_eq!(rep.status, 404),
        other => panic!("expected not found, got {:?}", other),
    }
}

#[test]
fn a_static_root_file_keeps_its_request_path() {
    let step = wrapped_file("static/pic.png", "root", "static");
    match step {
        FileStep::Respond(rep) => assert_eq!(rep.body, "<img src=\"/pic.png\" />"),
        other => panic!("expected markup, got {:?}", other),
    }
}

#[test]
fn response_constructors_carry_their_statuses() {
    assert_eq!(not_found().status, 404);
    assert_eq!(not_implemented().status, 501);
    assert_eq!(not_implemented().body, "not yet implemented");
    assert_eq!(server_error("boom").status, 500);
    assert_eq!(server_error("boom").body, "boom");
    assert_eq!(not_acceptable().status, 406);
    assert_eq!(method_not_allowed().status, 405);
    let ok = plain_ok("hi");
    assert_eq!(ok.status, 200);
    assert!(ok.content_type.is_none());
    let html = send_html("<p>x</p>".to_string());
    assert_eq!(html.status, 200);
    assert_eq!(html.content_type.as_deref(), Some("text/html"));
    assert_eq!(html.body, "<p>x</p>");
}
