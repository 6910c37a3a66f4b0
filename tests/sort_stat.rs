use qt_ts_tools::sort::sort_ts_node;
use qt_ts_tools::stat::{checked_stats, stats_ts_node, FileStats};
use qt_ts_tools::ts::{ContextNode, LocationNode, MessageNode, TSNode, TranslationNode, TranslationType};

fn message(source: &str, id: Option<&str>, locations: Vec<LocationNode>, status: Option<Option<TranslationType>>) -> MessageNode {
    MessageNode {
        source: Some(source.to_owned()),
        old_source: None,
        translation: status.map(|s| TranslationNode {
            translation_simple: Some(format!("{source}?")),
            numerus_forms: vec![],
            translation_type: s,
            variants: None,
            userdata: None,
        }),
        locations,
        comment: None,
        old_comment: None,
        extra_comment: None,
        translator_comment: None,
        numerus: None,
        id: id.map(|s| s.to_owned()),
        userdata: None,
        po_msg_id_plural: None,
        po_old_msg_id_plural: None,
        loc_flags: None,
        loc_layout_id: None,
        loc_feature: None,
        loc_blank: None,
    }
}

fn loc(file: Option<&str>, line: Option<u32>) -> LocationNode {
    LocationNode { filename: file.map(|f| f.to_owned()), line }
}

fn context(name: &str, messages: Vec<MessageNode>) -> ContextNode {
    ContextNode { name: name.to_owned(), messages, comment: None, encoding: None }
}

fn catalog(contexts: Vec<ContextNode>, messages: Vec<MessageNode>) -> TSNode {
    TSNode {
        version: None,
        source_language: None,
        language: None,
        contexts,
        messages,
        dependencies: None,
        comment: None,
        old_comment: None,
        extra_comment: None,
        translator_comment: None,
        po_msg_id_plural: None,
        po_old_msg_id_plural: None,
        loc_flags: None,
        loc_layout_id: None,
        loc_feature: None,
        loc_blank: None,
    }
}

#[test]
fn sort_orders_contexts_case_insensitively_and_stably() {
    let mut data = catalog(
        vec![context("b", vec![]), context("UiContext", vec![]), context("a", vec![]), context("A", vec![]), context("CodeContext", vec![])],
        vec![],
    );
    sort_ts_node(&mut data);
    let names: Vec<&str> = data.contexts.iter().map(|c| c.name.as_str()).collect();
    assert_eq!(names, vec!["a", "A", "b", "CodeContext", "UiContext"]);
}

#[test]
fn sort_orders_messages_and_locations() {
    let msgs = vec![
        message("no place", None, vec![], Some(None)),
        message("late", None, vec![loc(Some("ui_main.cpp"), Some(456)), loc(Some("ui_main.cpp"), Some(321))], Some(None)),
        message("early", None, vec![loc(Some("ui_potato_viewer.cpp"), Some(10)), loc(Some("ui_main.cpp"), Some(144))], Some(None)),
        message("with id x", Some("x"), vec![], Some(None)),
        message("with id y", Some("y"), vec![], Some(None)),
    ];
    let mut data = catalog(vec![context("C", msgs)], vec![]);
    sort_ts_node(&mut data);
    let msgs = &data.contexts[0].messages;
    let sources: Vec<&str> = msgs.iter().map(|m| m.source.as_deref().unwrap()).collect();
    assert_eq!(sources, vec!["with id y", "with id x", "early", "late", "no place"]);
    assert_eq!(msgs[2].locations, vec![loc(Some("ui_main.cpp"), Some(144)), loc(Some("ui_potato_viewer.cpp"), Some(10))]);
    assert_eq!(msgs[3].locations, vec![loc(Some("ui_main.cpp"), Some(321)), loc(Some("ui_main.cpp"), Some(456))]);
}

#[test]
fn sort_locations_ignore_case_and_put_missing_line_first() {
    let msgs = vec![message("m", None, vec![loc(Some("B.cpp"), Some(1)), loc(Some("a.cpp"), Some(2)), loc(Some("a.cpp"), None)], None)];
    let mut data = catalog(vec![context("C", msgs)], vec![]);
    sort_ts_node(&mut data);
    assert_eq!(
        data.contexts[0].messages[0].locations,
        vec![loc(Some("a.cpp"), None), loc(Some("a.cpp"), Some(2)), loc(Some("B.cpp"), Some(1))]
    );
}

#[test]
fn stats_count_messages_and_files() {
    let data = catalog(
        vec![context(
            "C",
            vec![
                message("a", None, vec![loc(Some("one.cpp"), Some(1)), loc(Some("one.cpp"), Some(2))], Some(Some(TranslationType::Obsolete))),
                message("b", None, vec![loc(Some("two.cpp"), Some(1))], Some(Some(TranslationType::Vanished))),
                message("c", None, vec![loc(None, Some(3))], None),
            ],
        )],
        vec![
            message("d", None, vec![loc(Some("two.cpp"), Some(5))], Some(Some(TranslationType::Unfinished))),
            message("e", None, vec![], Some(Some(TranslationType::Finished))),
        ],
    );
    let stats = stats_ts_node(&data);
    assert_eq!(stats.total_contexts, 1);
    assert_eq!(stats.total_context_less_messages, 2);
    assert_eq!(stats.total_messages, 5);
    assert_eq!(stats.total_unique_translations, 4);
    assert_eq!(stats.total_translations_references, 5);
    assert_eq!(stats.total_obsolete_translations, 1);
    assert_eq!(stats.total_vanished_translations, 1);
    assert_eq!(stats.total_missing_translations, 1);
    assert_eq!(
        stats.files,
        vec![
            FileStats {
                filepath: "invalid".to_owned(),
                unfinished_translations: 1,
                vanished_translations: 0,
                obsolete_translations: 0,
                finished_translation: 0,
                total_translations: 1,
            },
            FileStats {
                filepath: "one.cpp".to_owned(),
                unfinished_translations: 0,
                vanished_translations: 0,
                obsolete_translations: 2,
                finished_translation: 0,
                total_translations: 2,
            },
            FileStats {
                filepath: "two.cpp".to_owned(),
                unfinished_translations: 1,
                vanished_translations: 1,
                obsolete_translations: 0,
                finished_translation: 0,
                total_translations: 2,
            },
        ]
    );
    let checked = checked_stats(&data).unwrap();
    assert_eq!(checked.files, stats.files);
    assert_eq!(checked.total_messages, 5);
}
