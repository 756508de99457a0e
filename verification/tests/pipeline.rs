use translations_converter::android::StringResource;
use translations_converter::android::StringResources;
use translations_converter::gettext::parse_catalog;
use translations_converter::gettext::parse_line;
use translations_converter::gettext::template_block;
use translations_converter::gettext::trim;
use translations_converter::locale::android_locale_directory;
use translations_converter::locale::rewrite_url;
use translations_converter::locale::website_locale;
use translations_converter::text::normalize;
use translations_converter::text::normalize_catalog_text;
use translations_converter::xref::build_lookup;
use translations_converter::xref::generate_translations;
use translations_converter::xref::match_catalog;
use translations_converter::xref::retain_missing;

fn table(entries: &[(&str, &str)]) -> StringResources {
    let mut resources = StringResources::new();
    for (name, value) in entries {
        resources.push(StringResource {
            name: (*name).to_string(),
            value: (*value).to_string(),
        });
    }
    resources
}

fn lines(raw: &[&str]) -> Vec<String> {
    raw.iter().map(|l| (*l).to_string()).collect()
}

#[test]
fn normalize_collapses_line_breaks() {
    assert_eq!(normalize("a \n b"), "a b");
    assert_eq!(normalize("a\n\nb"), "a b");
    assert_eq!(normalize("a  b"), "a  b");
}

#[test]
fn normalize_fixes_apostrophes() {
    assert_eq!(normalize("it\u{e2}\u{20ac}\u{2122}s"), "it's");
    assert_eq!(normalize("it\\'s"), "it's");
}

#[test]
fn normalize_is_idempotent_on_samples() {
    let samples = ["a \n b", "it\\'s", "it\u{e2}\u{20ac}\u{2122}s", "", "plain text"];
    for s in samples {
        let once = normalize(s);
        assert_eq!(normalize(&once), once);
    }
}

#[test]
fn catalog_normalization_strips_parameters() {
    assert_eq!(normalize_catalog_text("Hello %(user)!"), "Hello %!");
    assert_eq!(normalize_catalog_text("%(a) and %(b)"), "% and %");
    assert_eq!(normalize_catalog_text("50%("), "50%(");
}

#[test]
fn escaping_leaves_plain_text_alone() {
    let entry = StringResource::new("id".to_string(), "plain text");
    assert_eq!(entry.value, "plain text");
}

#[test]
fn escaping_adds_backslashes() {
    let entry = StringResource::new("id".to_string(), "a\\b\"c'd");
    assert_eq!(entry.value, "a\\\\b\\\"c\\'d");
}

#[test]
fn trim_strips_surrounding_whitespace() {
    assert_eq!(trim("  msgid \"x\"\t"), "msgid \"x\"");
    assert_eq!(trim("   "), "");
    assert_eq!(trim("x"), "x");
}

#[test]
fn parse_line_extracts_quoted_text() {
    assert_eq!(parse_line("msgid \"Hello\"", "msgid \"", "\""), Some("Hello"));
    assert_eq!(parse_line("msgid \"\"", "msgid \"", "\""), Some(""));
    assert_eq!(parse_line("msgid \"", "msgid \"", "\""), None);
    assert_eq!(parse_line("# comment", "msgid \"", "\""), None);
}

#[test]
fn catalog_parser_pairs_lines() {
    let entries = parse_catalog(&lines(&[
        "msgid \"Hello\"",
        "msgstr \"Bonjour\"",
        "",
        "msgid \"Bye\"",
        "msgstr \"Au revoir\"",
    ]));
    assert_eq!(entries.len(), 2);
    assert_eq!(entries[0].id, "Hello");
    assert_eq!(entries[0].value, "Bonjour");
    assert_eq!(entries[1].id, "Bye");
    assert_eq!(entries[1].value, "Au revoir");
}

#[test]
fn catalog_parser_drops_interrupted_id() {
    let entries = parse_catalog(&lines(&["msgid \"Hello\"", "msgid \"World\"", "msgstr \"Monde\""]));
    assert_eq!(entries.len(), 1);
    assert_eq!(entries[0].id, "World");
    assert_eq!(entries[0].value, "Monde");
}

#[test]
fn catalog_parser_resets_on_blank_line() {
    let entries = parse_catalog(&lines(&["msgid \"Hello\"", "", "msgstr \"Bonjour\""]));
    assert_eq!(entries.len(), 0);
}

#[test]
fn resource_directory_derivation() {
    assert_eq!(android_locale_directory("de"), "values-de");
    assert_eq!(android_locale_directory("zh-TW"), "values-zh-rTW");
    assert_eq!(android_locale_directory("es-AR"), "values-es-rAR");
}

#[test]
fn website_locale_derivation() {
    assert_eq!(website_locale("de"), Some("de"));
    assert_eq!(website_locale("zh-TW"), Some("zh-hant"));
    assert_eq!(website_locale("es-AR"), None);
}

#[test]
fn url_rewrite() {
    assert_eq!(rewrite_url("https://mullvad.net/en/help", "de"), "https://mullvad.net/de/help");
    assert_eq!(rewrite_url("https://mullvad.net/faq", "de"), "https://mullvad.net/faq");
}

#[test]
fn lookup_partition_is_exhaustive_and_disjoint() {
    let resources = table(&[
        ("download_url", "https://mullvad.net/en/download/"),
        ("greeting", "Hello"),
        ("faq_url", "https://mullvad.net/en/faq/"),
        ("farewell", "Bye"),
    ]);
    let (urls, texts) = build_lookup(&resources);
    assert_eq!(urls.len(), 2);
    assert_eq!(texts.len(), 2);
    assert!(urls.iter().all(|e| e.value.starts_with("https://mullvad.net/en/")));
    assert!(texts.iter().all(|e| !e.value.starts_with("https://mullvad.net/en/")));
}

#[test]
fn lookup_keeps_last_entry_for_duplicate_text() {
    let resources = table(&[("first", "Hello"), ("second", "Hello")]);
    let (_, texts) = build_lookup(&resources);
    assert_eq!(texts.len(), 1);
    assert_eq!(texts[0].name, "second");
}

#[test]
fn match_claims_each_key_at_most_once() {
    let resources = table(&[("greeting", "Hello"), ("farewell", "Bye")]);
    let (_, texts) = build_lookup(&resources);
    let catalog = parse_catalog(&lines(&[
        "msgid \"Hello\"",
        "msgstr \"Hallo\"",
        "msgid \"Hello\"",
        "msgstr \"Hallo nochmal\"",
    ]));
    let (matched, remainder) = match_catalog(texts, &catalog);
    assert_eq!(matched.len(), 1);
    assert_eq!(matched[0].name, "greeting");
    assert_eq!(matched[0].value, "Hallo");
    assert_eq!(remainder.len(), 1);
    assert_eq!(remainder[0].name, "farewell");
}

#[test]
fn match_complement_covers_the_lookup() {
    let resources = table(&[("a", "One"), ("b", "Two"), ("c", "Three")]);
    let (_, texts) = build_lookup(&resources);
    let catalog = parse_catalog(&lines(&["msgid \"Two\"", "msgstr \"Zwei\""]));
    let (matched, remainder) = match_catalog(texts, &catalog);
    assert_eq!(matched.len() + remainder.len(), 3);
    let mut names: Vec<String> = matched.iter().chain(remainder.iter()).map(|e| e.name.clone()).collect();
    names.sort();
    assert_eq!(names, vec!["a".to_string(), "b".to_string(), "c".to_string()]);
}

#[test]
fn end_to_end_translated_locale() {
    let mut resources = table(&[("relay_warning", "Server is down")]);
    resources.normalize();
    let (urls, texts) = build_lookup(&resources);
    let catalog = parse_catalog(&lines(&[
        "msgid \"Server is down\"",
        "msgstr \"Der Server ist ausgefallen\"",
    ]));
    let (output, remainder) = generate_translations("de", &urls, texts, &catalog);
    assert_eq!(
        output.to_document_string(),
        "<resources>\n    <string name=\"relay_warning\">Der Server ist ausgefallen</string>\n</resources>\n"
    );
    assert!(remainder.is_empty());
}

#[test]
fn end_to_end_untranslated_string_is_missing() {
    let mut resources = table(&[("greeting", "Hello"), ("farewell", "Bye")]);
    resources.normalize();
    let (urls, texts) = build_lookup(&resources);
    let mut missing = texts.clone();
    let catalog = parse_catalog(&lines(&["msgid \"Hello\"", "msgstr \"Hallo\""]));
    let (output, remainder) = generate_translations("de", &urls, texts, &catalog);
    assert_eq!(
        output.to_document_string(),
        "<resources>\n    <string name=\"greeting\">Hallo</string>\n</resources>\n"
    );
    assert_eq!(remainder.len(), 1);
    assert_eq!(remainder[0].name, "farewell");
    assert_eq!(remainder[0].value, "Bye");
    retain_missing(&mut missing, &remainder);
    assert_eq!(missing.len(), 1);
    assert_eq!(missing[0].name, "farewell");
    assert_eq!(missing[0].value, "Bye");
}

#[test]
fn url_entries_are_rewritten_for_the_locale() {
    let mut resources = table(&[("download_url", "https://mullvad.net/en/download/")]);
    resources.normalize();
    let (urls, texts) = build_lookup(&resources);
    let catalog = parse_catalog(&lines(&[]));
    let (output, _) = generate_translations("de", &urls, texts, &catalog);
    assert_eq!(
        output.to_document_string(),
        "<resources>\n    <string name=\"download_url\">https://mullvad.net/de/download/</string>\n</resources>\n"
    );
}

#[test]
fn url_entries_are_skipped_for_unrecognized_locales() {
    let mut resources = table(&[("download_url", "https://mullvad.net/en/download/")]);
    resources.normalize();
    let (urls, texts) = build_lookup(&resources);
    let catalog = parse_catalog(&lines(&[]));
    let (output, _) = generate_translations("es-AR", &urls, texts, &catalog);
    assert_eq!(output.to_document_string(), "<resources>\n</resources>\n");
}

#[test]
fn template_block_matches_the_reader_convention() {
    let catalog = parse_catalog(&lines(&["msgid \"Hello\"", "msgstr \"\""]));
    let block = template_block(&catalog);
    assert_eq!(block, "\nmsgid \"Hello\"\nmsgstr \"\"\n");
    let reread = parse_catalog(&lines(&block.lines().collect::<Vec<&str>>()));
    assert_eq!(reread.len(), 1);
    assert_eq!(reread[0].id, "Hello");
    assert_eq!(reread[0].value, "");
}

#[test]
fn normalization_applies_before_matching() {
    let mut resources = table(&[("warning", "Device is\noffline")]);
    resources.normalize();
    let (urls, texts) = build_lookup(&resources);
    let catalog = parse_catalog(&lines(&["msgid \"Device is offline\"", "msgstr \"Hors ligne\""]));
    let (output, remainder) = generate_translations("fr", &urls, texts, &catalog);
    assert_eq!(
        output.to_document_string(),
        "<resources>\n    <string name=\"warning\">Hors ligne</string>\n</resources>\n"
    );
    assert!(remainder.is_empty());
}
