use grass_verified::options::{InputSyntax, Options, OutputStyle};

#[test]
fn syntax_from_extension() {
    assert_eq!(InputSyntax::for_extension(Some("css")), InputSyntax::Css);
    assert_eq!(InputSyntax::for_extension(Some("SASS")), InputSyntax::Sass);
    assert_eq!(InputSyntax::for_extension(Some("Css")), InputSyntax::Css);
    assert_eq!(InputSyntax::for_extension(Some("scss")), InputSyntax::Scss);
    assert_eq!(InputSyntax::for_extension(Some("csss")), InputSyntax::Scss);
    assert_eq!(InputSyntax::for_extension(None), InputSyntax::Scss);
}

#[test]
fn syntax_from_path() {
    assert_eq!(InputSyntax::for_path("a/b/style.css"), InputSyntax::Css);
    assert_eq!(InputSyntax::for_path("a/b/_part.SASS"), InputSyntax::Sass);
    assert_eq!(InputSyntax::for_path("main.scss"), InputSyntax::Scss);
    assert_eq!(InputSyntax::for_path("noext"), InputSyntax::Scss);
    assert_eq!(InputSyntax::for_path(".css"), InputSyntax::Scss);
}

#[test]
fn default_options() {
    let o = Options::default();
    assert_eq!(o.style, OutputStyle::Expanded);
    assert!(o.load_paths.is_empty());
    assert!(o.allows_charset);
    assert!(o.unicode_error_messages);
    assert!(!o.quiet);
    assert_eq!(o.input_syntax, None);
    assert!(!o.source_map);
    assert!(!o.is_compressed());
}

#[test]
fn builders_set_one_field_each() {
    let o = Options::default()
        .style(OutputStyle::Compressed)
        .quiet(true)
        .allows_charset(false)
        .unicode_error_messages(false)
        .input_syntax(InputSyntax::Sass)
        .source_map(true)
        .load_path("a")
        .load_paths(&["b", "c"]);
    assert!(o.is_compressed());
    assert!(o.quiet);
    assert!(!o.allows_charset);
    assert!(!o.unicode_error_messages);
    assert_eq!(o.input_syntax, Some(InputSyntax::Sass));
    assert!(o.source_map);
    assert_eq!(o.load_paths, vec!["a".to_string(), "b".to_string(), "c".to_string()]);
}

#[test]
fn syntax_from_a_bare_file_name() {
    assert_eq!(InputSyntax::for_path("style.CSS"), InputSyntax::Css);
    assert_eq!(InputSyntax::for_path("a.b.sass"), InputSyntax::Sass);
    assert_eq!(InputSyntax::for_path("archive.css.scss"), InputSyntax::Scss);
    assert_eq!(InputSyntax::for_path("trailing."), InputSyntax::Scss);
}

#[test]
fn deprecation_control() {
    let o = Options::default();
    assert!(o.silence_deprecations.is_empty());
    let o = o
        .silence_deprecation("slash-div")
        .silence_deprecation("import")
        .fatal_deprecation("color-functions")
        .future_deprecation("if-function")
        .quiet(true);
    assert!(o.silence_deprecations.contains("slash-div"));
    assert!(o.silence_deprecations.contains("import"));
    assert_eq!(o.silence_deprecations.len(), 2);
    assert!(o.fatal_deprecations.contains("color-functions"));
    assert!(!o.fatal_deprecations.contains("slash-div"));
    assert!(o.future_deprecations.contains("if-function"));
    assert!(o.quiet);
}
