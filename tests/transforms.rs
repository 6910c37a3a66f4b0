use qt_ts_tools::extract::{retain_ts_node, translation_is_wanted};
use qt_ts_tools::strip::{strip_nodes, to_translation_type, TranslationTypeArg};
use qt_ts_tools::ts::{ContextNode, MessageNode, TSNode, TranslationNode, TranslationType};

fn message(source: &str, status: Option<TranslationType>) -> MessageNode {
    MessageNode {
        source: Some(source.to_owned()),
        old_source: None,
        translation: Some(TranslationNode {
            translation_simple: Some(format!("{source}!")),
            numerus_forms: vec![],
            translation_type: status,
            variants: None,
            userdata: None,
        }),
        locations: vec![],
        comment: None,
        old_comment: None,
        extra_comment: None,
        translator_comment: None,
        numerus: None,
        id: None,
        userdata: None,
        po_msg_id_plural: None,
        po_old_msg_id_plural: None,
        loc_flags: None,
        loc_layout_id: None,
        loc_feature: None,
        loc_blank: None,
    }
}

fn catalog(contexts: Vec<ContextNode>, messages: Vec<MessageNode>) -> TSNode {
    TSNode {
        version: Some("2.1".to_owned()),
        source_language: None,
        language: Some("de".to_owned()),
        contexts,
        messages,
        dependencies: None,
        comment: None,
        old_comment: None,
        extra_comment: None,
        translator_comment: None,
        po_msg_id_plural: None,
        po_old_msg_id_plural: None,
        loc_flags: None,
        loc_layout_id: None,
        loc_feature: None,
        loc_blank: None,
    }
}

fn context(name: &str, messages: Vec<MessageNode>) -> ContextNode {
    ContextNode { name: name.to_owned(), messages, comment: None, encoding: None }
}

#[test]
fn strip_removes_selected_translations() {
    let mut data = catalog(
        vec![context(
            "C",
            vec![message("a", Some(TranslationType::Obsolete)), message("b", None), message("c", Some(TranslationType::Vanished))],
        )],
        vec![message("d", Some(TranslationType::Obsolete))],
    );
    strip_nodes(&mut data, &[TranslationType::Obsolete]);
    assert_eq!(data.contexts[0].messages[0].translation, None);
    assert_eq!(data.contexts[0].messages[1], message("b", None));
    assert_eq!(data.contexts[0].messages[2], message("c", Some(TranslationType::Vanished)));
    assert_eq!(data.messages[0].translation, None);
    assert_eq!(data.messages[0].source.as_deref(), Some("d"));
}

#[test]
fn extract_keeps_wanted_messages_and_contexts() {
    let mut data = catalog(
        vec![
            context("A", vec![message("a", Some(TranslationType::Unfinished)), message("b", None)]),
            context("B", vec![message("c", None)]),
        ],
        vec![message("d", Some(TranslationType::Unfinished)), message("e", Some(TranslationType::Obsolete))],
    );
    retain_ts_node(&mut data, &[TranslationType::Unfinished]);
    assert_eq!(data.contexts.len(), 1);
    assert_eq!(data.contexts[0].name, "A");
    assert_eq!(data.contexts[0].messages, vec![message("a", Some(TranslationType::Unfinished))]);
    assert_eq!(data.messages, vec![message("d", Some(TranslationType::Unfinished))]);
}

#[test]
fn translation_wanted_needs_a_status() {
    let m = message("a", None);
    assert!(!translation_is_wanted(m.translation.as_ref(), &[TranslationType::Finished]));
    assert!(!translation_is_wanted(None, &[TranslationType::Finished]));
    let m = message("a", Some(TranslationType::Vanished));
    assert!(translation_is_wanted(m.translation.as_ref(), &[TranslationType::Obsolete, TranslationType::Vanished]));
}

#[test]
fn translation_type_arguments_convert() {
    assert_eq!(to_translation_type(&TranslationTypeArg::Obsolete), TranslationType::Obsolete);
    assert_eq!(to_translation_type(&TranslationTypeArg::Unfinished), TranslationType::Unfinished);
    assert_eq!(TranslationType::from(TranslationTypeArg::Vanished), TranslationType::Vanished);
    assert_eq!(TranslationType::default(), TranslationType::Finished);
}
