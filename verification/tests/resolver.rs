use dirindex::resolver::{
    after_fallback, after_literal, literal_target, LiteralStep, Resolution, ResolveError,
    ServeOutcome,
};

/// A serving collaborator over an in-memory root directory: a list of
/// (path, content) pairs.
fn serve(fs: &[(&str, &[u8])], target: &str) -> ServeOutcome {
    match fs.iter().find(|(p, _)| *p == target) {
        Some((_, content)) => ServeOutcome::Found(content.to_vec()),
        None => ServeOutcome::Missing,
    }
}

/// Runs the whole per-request decision chain against an in-memory root.
fn resolve(fs: &[(&str, &[u8])], request: &str, prefix: &str) -> Resolution {
    let target = match literal_target(request, prefix) {
        Ok(t) => t,
        Err(e) => return Resolution::Failed(e),
    };
    match after_literal(target.as_str(), serve(fs, target.as_str())) {
        LiteralStep::Settled(r) => r,
        LiteralStep::Fallback(t) => after_fallback(serve(fs, t.as_str())),
    }
}

#[test]
fn literal_hit_serves_the_file_unmodified() {
    let fs: &[(&str, &[u8])] = &[("/css/app.css", b"body { color: red }")];
    let got = resolve(fs, "/static/css/app.css", "/static");
    assert_eq!(got, Resolution::Served(b"body { color: red }".to_vec()));
}

#[test]
fn missing_literal_falls_back_to_html() {
    let fs: &[(&str, &[u8])] = &[("/about.html", b"<h1>about</h1>")];
    let got = resolve(fs, "/static/about", "/static");
    assert_eq!(got, Resolution::Served(b"<h1>about</h1>".to_vec()));
}

#[test]
fn double_miss_is_not_found_not_error() {
    let fs: &[(&str, &[u8])] = &[("/about.html", b"<h1>about</h1>")];
    let got = resolve(fs, "/static/missing", "/static");
    assert_eq!(got, Resolution::Absent);
}

#[test]
fn prefix_mismatch_is_an_error() {
    let got = literal_target("/other/x", "/static");
    assert_eq!(got, Err(ResolveError::PrefixMismatch));
}

#[test]
fn prefix_must_end_at_a_separator() {
    assert_eq!(
        literal_target("/staticx", "/static"),
        Err(ResolveError::PrefixMismatch)
    );
}

#[test]
fn request_equal_to_prefix_targets_the_root() {
    assert_eq!(literal_target("/static", "/static"), Ok("/".to_string()));
}

#[test]
fn literal_target_strips_and_reanchors() {
    assert_eq!(
        literal_target("/static/css/app.css", "/static"),
        Ok("/css/app.css".to_string())
    );
}

#[test]
fn unparsable_target_is_an_invalid_path() {
    // a space never parses as a request target
    assert_eq!(
        literal_target("/static/a b", "/static"),
        Err(ResolveError::InvalidPath)
    );
}

#[test]
fn fallback_target_appends_html() {
    let step = after_literal("/about", ServeOutcome::Missing);
    assert_eq!(step, LiteralStep::Fallback("/about.html".to_string()));
}

#[test]
fn serving_failure_surfaces_as_error() {
    let step = after_literal("/about", ServeOutcome::Failure);
    assert_eq!(
        step,
        LiteralStep::Settled(Resolution::Failed(ResolveError::ServeFailure))
    );
    assert_eq!(
        after_fallback(ServeOutcome::Failure),
        Resolution::Failed(ResolveError::ServeFailure)
    );
}

#[test]
fn found_fallback_is_served_unmodified() {
    assert_eq!(
        after_fallback(ServeOutcome::Found(b"page".to_vec())),
        Resolution::Served(b"page".to_vec())
    );
}
