use mdbook_drawio::cache::{CacheOp, DrawIoCache};
use mdbook_drawio::chapter_dir_of;
use mdbook_drawio::engine::{EngineAction, RewriteEngine};
use mdbook_drawio::paths::BookPath;
use mdbook_drawio::render::{extract_svg, page_key_of_output, render_args, renderer_command};
use mdbook_drawio::DrawIo;

fn probe(a: &EngineAction) -> (String, String) {
    match a {
        EngineAction::Probe { source, cache_file } => {
            (source.to_string(), cache_file.to_string())
        }
        _ => panic!("expected a probe"),
    }
}

fn render_source(a: &EngineAction) -> String {
    match a {
        EngineAction::Render { source } => source.to_string(),
        _ => panic!("expected a render request"),
    }
}

fn done(a: &EngineAction) -> String {
    match a {
        EngineAction::Done { output } => output.clone(),
        _ => panic!("expected the rewrite to be done"),
    }
}

#[test]
fn scenario_render_miss_then_splice() {
    // One reference, empty cache: the diagram is rendered once, its page
    // populates the cache, and the rendered payload replaces the match.
    let mut cache = DrawIoCache::new(BookPath::parse("root"));
    let (mut eng, act) = RewriteEngine::new(BookPath::parse(""), "![a](blah-page1.drawio)", &cache);

    let (source, cache_file) = probe(&act);
    assert_eq!(source, "blah.drawio");
    assert_eq!(cache_file, "root/blah/page1.svg");

    // the diagram exists on disk, nothing is cached yet
    let act = eng.on_probe(&mut cache, true, 5, false, 0, "");
    assert_eq!(render_source(&act), "blah.drawio");

    // the renderer produced one page file, payload wrapped in a preamble
    let batch = vec![(
        "blah-page1.svg".to_string(),
        "<?xml version=\"1.0\"?><svg >X</svg>".to_string(),
    )];
    let act = eng.on_render(&mut cache, true, &batch, 6);
    let output = done(&act);
    assert_eq!(output, "<svg >X</svg>");
    assert_eq!(eng.skipped_count(), 0);

    // the cache now holds the page under the diagram identity
    assert_eq!(
        cache.get_diagram(&BookPath::parse("blah"), "page1.svg", 5),
        Ok("<svg >X</svg>".to_string())
    );
    let ops = cache.take_journal();
    assert_eq!(ops.len(), 1);
    match &ops[0] {
        CacheOp::Write { path, content } => {
            assert_eq!(path.to_string(), "root/blah/page1.svg");
            assert_eq!(content, "<svg >X</svg>");
        }
        _ => panic!("expected a write"),
    }
}

#[test]
fn scenario_one_render_serves_both_pages() {
    // Two references to pages of the same diagram: exactly one render, the
    // second page is resolved from the batch-populated cache.
    let mut cache = DrawIoCache::new(BookPath::parse("root"));
    let content = "![a](blah-page1.drawio) and ![b](blah-page2.drawio)";
    let (mut eng, act) = RewriteEngine::new(BookPath::parse(""), content, &cache);

    let (source, _) = probe(&act);
    assert_eq!(source, "blah.drawio");
    let act = eng.on_probe(&mut cache, true, 5, false, 0, "");
    assert_eq!(render_source(&act), "blah.drawio");

    let batch = vec![
        ("blah-page1.svg".to_string(), "pre<svg >1</svg>".to_string()),
        ("blah-page2.svg".to_string(), "pre<svg >2</svg>".to_string()),
    ];
    let act = eng.on_render(&mut cache, true, &batch, 6);

    // the engine asks to probe the second match, not to render again
    let (source2, cache_file2) = probe(&act);
    assert_eq!(source2, "blah.drawio");
    assert_eq!(cache_file2, "root/blah/page2.svg");

    // the second lookup hits the cache populated by the single render
    let act = eng.on_probe(&mut cache, true, 5, false, 0, "");
    let output = done(&act);
    assert_eq!(output, "<svg >1</svg> and <svg >2</svg>");
    assert_eq!(eng.skipped_count(), 0);
}

#[test]
fn scenario_missing_diagram_leaves_text_unchanged() {
    // The referenced diagram is not on disk: the match stays verbatim, no
    // render is requested, the unit is not aborted.
    let mut cache = DrawIoCache::new(BookPath::parse("root"));
    let content = "before ![a](gone-page1.drawio) after";
    let (mut eng, act) = RewriteEngine::new(BookPath::parse(""), content, &cache);
    probe(&act);
    let act = eng.on_probe(&mut cache, false, 0, false, 0, "");
    assert_eq!(done(&act), content);
    assert_eq!(eng.skipped_count(), 1);
    assert!(cache.take_journal().is_empty());
}

#[test]
fn scenario_cache_hit_skips_render() {
    // The cache file on disk is live: the content is spliced with no render.
    let mut cache = DrawIoCache::new(BookPath::parse("root"));
    let (mut eng, act) =
        RewriteEngine::new(BookPath::parse(""), "![a](blah-page1.drawio)", &cache);
    probe(&act);
    // source mtime 5, cached entry written at 9: still live
    let act = eng.on_probe(&mut cache, true, 5, true, 9, "<svg >cached</svg>");
    assert_eq!(done(&act), "<svg >cached</svg>");
    assert_eq!(eng.skipped_count(), 0);
}

#[test]
fn scenario_stale_cache_file_is_rendered_anew() {
    // The cached entry is older than the diagram source: it is discarded
    // (its removal journalled) and a fresh render is requested.
    let mut cache = DrawIoCache::new(BookPath::parse("root"));
    let (mut eng, act) =
        RewriteEngine::new(BookPath::parse(""), "![a](blah-page1.drawio)", &cache);
    probe(&act);
    let act = eng.on_probe(&mut cache, true, 20, true, 10, "<svg >old</svg>");
    assert_eq!(render_source(&act), "blah.drawio");
    let ops = cache.take_journal();
    assert_eq!(ops.len(), 1);
    match &ops[0] {
        CacheOp::Remove { path } => assert_eq!(path.to_string(), "root/blah/page1.svg"),
        _ => panic!("expected a removal"),
    }
    let batch = vec![("blah-page1.svg".to_string(), "x<svg >new</svg>".to_string())];
    let act = eng.on_render(&mut cache, true, &batch, 21);
    assert_eq!(done(&act), "<svg >new</svg>");
}

#[test]
fn scenario_render_failure_leaves_match_verbatim() {
    let mut cache = DrawIoCache::new(BookPath::parse("root"));
    let content = "x ![a](blah-page1.drawio) y";
    let (mut eng, act) = RewriteEngine::new(BookPath::parse(""), content, &cache);
    probe(&act);
    let act = eng.on_probe(&mut cache, true, 5, false, 0, "");
    render_source(&act);
    let act = eng.on_render(&mut cache, false, &Vec::new(), 6);
    assert_eq!(done(&act), content);
    assert_eq!(eng.skipped_count(), 1);
}

#[test]
fn scenario_absent_page_leaves_match_verbatim() {
    // The render succeeded but the diagram has no such page: the match is a
    // broken reference; it stays verbatim and the other pages are cached.
    let mut cache = DrawIoCache::new(BookPath::parse("root"));
    let content = "![a](blah-page9.drawio)";
    let (mut eng, act) = RewriteEngine::new(BookPath::parse(""), content, &cache);
    probe(&act);
    let act = eng.on_probe(&mut cache, true, 5, false, 0, "");
    render_source(&act);
    let batch = vec![("blah-page1.svg".to_string(), "a<svg >1</svg>".to_string())];
    let act = eng.on_render(&mut cache, true, &batch, 6);
    assert_eq!(done(&act), content);
    assert_eq!(eng.skipped_count(), 1);
    assert_eq!(
        cache.get_diagram(&BookPath::parse("blah"), "page1.svg", 5),
        Ok("<svg >1</svg>".to_string())
    );
}

#[test]
fn scenario_chapter_dir_prefixes_paths() {
    // A chapter at guide/ch1.md under the content root "src": its diagram
    // references resolve under src/guide.
    let cache = DrawIoCache::new(BookPath::parse("root"));
    let dir = chapter_dir_of(&BookPath::parse("src"), &BookPath::parse("guide/ch1.md"));
    assert_eq!(dir, BookPath::parse("src/guide"));
    let (_eng, act) = RewriteEngine::new(dir, "![a](blah-p.drawio)", &cache);
    let (source, cache_file) = probe(&act);
    assert_eq!(source, "src/guide/blah.drawio");
    assert_eq!(cache_file, "root/src/guide/blah/p.svg");
}

#[test]
fn scenario_absolute_reference_is_left_verbatim() {
    let cache = DrawIoCache::new(BookPath::parse("root"));
    let content = "![a](/abs-x.drawio)";
    let (eng, act) = RewriteEngine::new(BookPath::parse(""), content, &cache);
    assert_eq!(done(&act), content);
    assert_eq!(eng.skipped_count(), 1);
}

#[test]
fn scenario_unkeyable_reference_does_not_stop_the_unit() {
    // An absolute reference cannot be keyed and stays verbatim, but the
    // next reference is still probed and resolved.
    let mut cache = DrawIoCache::new(BookPath::parse("root"));
    let content = "![a](/abs-x.drawio) then ![b](blah-page1.drawio)";
    let (mut eng, act) = RewriteEngine::new(BookPath::parse(""), content, &cache);
    let (source, _) = probe(&act);
    assert_eq!(source, "blah.drawio");
    let act = eng.on_probe(&mut cache, true, 5, true, 9, "<svg >ok</svg>");
    assert_eq!(done(&act), "![a](/abs-x.drawio) then <svg >ok</svg>");
    assert_eq!(eng.skipped_count(), 1);
}

#[test]
fn scenario_second_unit_resolves_from_cache() {
    // A later text unit referencing the same page is served from the cache
    // the first unit populated: no further render, no further probe miss.
    let mut cache = DrawIoCache::new(BookPath::parse("root"));
    let (mut eng, act) =
        RewriteEngine::new(BookPath::parse(""), "![a](blah-page1.drawio)", &cache);
    probe(&act);
    let act = eng.on_probe(&mut cache, true, 5, false, 0, "");
    render_source(&act);
    let batch = vec![("blah-page1.svg".to_string(), "q<svg >X</svg>".to_string())];
    let act = eng.on_render(&mut cache, true, &batch, 6);
    done(&act);

    let (mut eng2, act2) =
        RewriteEngine::new(BookPath::parse(""), "again: ![b](blah-page1.drawio)", &cache);
    probe(&act2);
    let act2 = eng2.on_probe(&mut cache, true, 5, false, 0, "");
    assert_eq!(done(&act2), "again: <svg >X</svg>");
    assert_eq!(eng2.skipped_count(), 0);
}

#[test]
fn scenario_content_outside_ascii_is_preserved() {
    let mut cache = DrawIoCache::new(BookPath::parse("root"));
    let content = "héllo wörld ![ä](blah-page1.drawio) 終わり";
    let (mut eng, act) = RewriteEngine::new(BookPath::parse(""), content, &cache);
    probe(&act);
    let act = eng.on_probe(&mut cache, true, 5, true, 9, "<svg >ü</svg>");
    assert_eq!(done(&act), "héllo wörld <svg >ü</svg> 終わり");
}

#[test]
fn extract_svg_takes_everything_from_the_marker() {
    assert_eq!(
        extract_svg("<?xml?>junk<svg width=\"3\">body</svg>"),
        Some("<svg width=\"3\">body</svg>".to_string())
    );
    assert_eq!(extract_svg("no marker here"), None);
    assert_eq!(extract_svg("<svg>no space</svg>"), None);
    assert_eq!(extract_svg("a<svg b<svg c"), Some("<svg b<svg c".to_string()));
}

#[test]
fn page_key_strips_the_diagram_stem() {
    assert_eq!(page_key_of_output("blah", "blah-page1.svg"), "page1.svg");
    assert_eq!(page_key_of_output("blah", "other-page1.svg"), "other-page1.svg");
    assert_eq!(page_key_of_output("blah", "blah.svg"), "blah.svg");
    assert_eq!(page_key_of_output("", "-x.svg"), "x.svg");
}

#[test]
fn renderer_invocation_shape() {
    assert_eq!(renderer_command(), "drawio-exporter.exe");
    let args = render_args(&BookPath::parse("src/blah.drawio"), "/tmp/out");
    assert_eq!(
        args,
        vec![
            "src/blah.drawio",
            "--output",
            "/tmp/out",
            "--format",
            "svg",
            "--output-mode",
            "absolute"
        ]
    );
}

#[test]
fn preprocessor_identity() {
    let d = DrawIo::new(BookPath::parse("/book/.cache"));
    assert_eq!(d.name(), "drawio");
    assert!(d.supports_renderer("html"));
    assert!(!d.supports_renderer("pdf"));
    assert!(!d.supports_renderer(""));
}
