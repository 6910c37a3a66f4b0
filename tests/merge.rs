use qt_ts_tools::merge::{merge_messages, merge_ts_nodes, merge_ts_nodes_with_rule, IdentityRule};
use qt_ts_tools::ts::{ContextNode, LocationNode, MessageNode, TSNode, TranslationNode};

fn translation(text: &str) -> Option<TranslationNode> {
    Some(TranslationNode {
        translation_simple: Some(text.to_owned()),
        numerus_forms: vec![],
        translation_type: None,
        variants: None,
        userdata: None,
    })
}

fn message(source: &str, text: &str) -> MessageNode {
    MessageNode {
        source: Some(source.to_owned()),
        old_source: None,
        translation: translation(text),
        locations: vec![],
        comment: None,
        old_comment: None,
        extra_comment: None,
        translator_comment: None,
        numerus: None,
        id: None,
        userdata: None,
        po_msg_id_plural: None,
        po_old_msg_id_plural: None,
        loc_flags: None,
        loc_layout_id: None,
        loc_feature: None,
        loc_blank: None,
    }
}

fn location(file: &str, line: u32) -> LocationNode {
    LocationNode { filename: Some(file.to_owned()), line: Some(line) }
}

fn context(name: &str, messages: Vec<MessageNode>) -> ContextNode {
    ContextNode { name: name.to_owned(), messages, comment: None, encoding: None }
}

fn catalog(contexts: Vec<ContextNode>, messages: Vec<MessageNode>) -> TSNode {
    TSNode {
        version: Some("2.1".to_owned()),
        source_language: Some("en".to_owned()),
        language: Some("fr".to_owned()),
        contexts,
        messages,
        dependencies: None,
        comment: None,
        old_comment: None,
        extra_comment: None,
        translator_comment: None,
        po_msg_id_plural: None,
        po_old_msg_id_plural: None,
        loc_flags: None,
        loc_layout_id: None,
        loc_feature: None,
        loc_blank: None,
    }
}

#[test]
fn merge_without_identifiers_keeps_both_sources() {
    let base = catalog(vec![context("Ctx", vec![message("Hi", "Bonjour")])], vec![]);
    let incoming = catalog(vec![context("Ctx", vec![message("Hi There", "Salut")])], vec![]);
    let result = merge_ts_nodes(base, incoming, false);
    // Without identifiers the source texts differ, so the two messages are not matched.
    assert_eq!(result.contexts.len(), 1);
    assert_eq!(result.contexts[0].name, "Ctx");
    assert_eq!(result.contexts[0].messages, vec![message("Hi", "Bonjour"), message("Hi There", "Salut")]);
}

#[test]
fn merge_end_to_end_scenario() {
    let mut base_msg = message("Hi", "Bonjour");
    base_msg.id = Some("greeting".to_owned());
    let mut incoming_msg = message("Hi There", "Salut");
    incoming_msg.id = Some("greeting".to_owned());
    let base = catalog(vec![context("Ctx", vec![base_msg])], vec![]);
    let incoming = catalog(vec![context("Ctx", vec![incoming_msg])], vec![]);
    let result = merge_ts_nodes(base, incoming, false);
    assert_eq!(result.contexts.len(), 1);
    assert_eq!(result.contexts[0].name, "Ctx");
    assert_eq!(result.contexts[0].messages.len(), 1);
    let merged = &result.contexts[0].messages[0];
    assert_eq!(merged.source.as_deref(), Some("Hi There"));
    assert_eq!(merged.old_source.as_deref(), Some("Hi"));
    assert_eq!(
        merged.translation.as_ref().unwrap().translation_simple.as_deref(),
        Some("Salut")
    );
}

#[test]
fn merge_is_idempotent() {
    let mut located = message("Open", "Ouvrir");
    located.locations = vec![location("main.cpp", 12), location("menu.cpp", 3)];
    let c = catalog(
        vec![
            context("A", vec![located, message("Close", "Fermer")]),
            context("B", vec![message("Save", "Enregistrer")]),
        ],
        vec![message("Quit", "Quitter")],
    );
    let result = merge_ts_nodes(c.clone(), c.clone(), false);
    assert_eq!(result, c);
}

#[test]
fn merge_keeps_history_of_source() {
    let mut base_msg = message("Old text", "Ancien");
    base_msg.id = Some("k".to_owned());
    let mut incoming_msg = message("New text", "Nouveau");
    incoming_msg.id = Some("k".to_owned());
    let same_base = message("Same", "Pareil");
    let same_incoming = message("Same", "Pareil 2");
    let result = merge_messages(
        vec![base_msg, same_base],
        vec![incoming_msg, same_incoming],
        false,
        IdentityRule::SourceText,
    );
    assert_eq!(result.len(), 2);
    assert_eq!(result[0].old_source.as_deref(), Some("Old text"));
    assert_eq!(result[0].source.as_deref(), Some("New text"));
    assert_eq!(result[1].old_source, None);
    assert_eq!(result[1].source.as_deref(), Some("Same"));
    assert_eq!(
        result[1].translation.as_ref().unwrap().translation_simple.as_deref(),
        Some("Pareil 2")
    );
}

#[test]
fn merge_is_complete() {
    let base = vec![message("a", "A"), message("b", "B"), message("c", "C")];
    let incoming = vec![message("x", "X"), message("b", "B2"), message("y", "Y")];
    let result = merge_messages(base, incoming, false, IdentityRule::SourceText);
    let sources: Vec<&str> = result.iter().map(|m| m.source.as_deref().unwrap()).collect();
    assert_eq!(sources, vec!["a", "b", "c", "x", "y"]);
    assert_eq!(
        result[1].translation.as_ref().unwrap().translation_simple.as_deref(),
        Some("B2")
    );
}

#[test]
fn merge_replaces_locations_and_comments() {
    let mut base_msg = message("a", "A");
    base_msg.locations = vec![location("old.cpp", 1)];
    base_msg.comment = Some("old comment".to_owned());
    let mut incoming_msg = message("a", "A2");
    incoming_msg.locations = vec![location("new.cpp", 2)];
    incoming_msg.comment = Some("new comment".to_owned());
    let result = merge_messages(vec![base_msg], vec![incoming_msg], false, IdentityRule::SourceText);
    assert_eq!(result.len(), 1);
    assert_eq!(result[0].locations, vec![location("new.cpp", 2)]);
    assert_eq!(result[0].comment.as_deref(), Some("new comment"));
    assert_eq!(result[0].old_comment.as_deref(), Some("old comment"));
}

#[test]
fn merge_keep_translation_leaves_translations() {
    let mut base_msg = message("a", "A");
    base_msg.translator_comment = Some("mine".to_owned());
    let mut incoming_msg = message("a", "A2");
    incoming_msg.translator_comment = Some("theirs".to_owned());
    let mut base_ctx = context("Ctx", vec![base_msg]);
    base_ctx.comment = Some("base".to_owned());
    let mut incoming_ctx = context("Ctx", vec![incoming_msg]);
    incoming_ctx.comment = Some("incoming".to_owned());
    let result = merge_ts_nodes(catalog(vec![base_ctx], vec![]), catalog(vec![incoming_ctx], vec![]), true);
    let ctx = &result.contexts[0];
    assert_eq!(ctx.comment.as_deref(), Some("base"));
    assert_eq!(
        ctx.messages[0].translation.as_ref().unwrap().translation_simple.as_deref(),
        Some("A")
    );
    assert_eq!(ctx.messages[0].translator_comment.as_deref(), Some("mine"));
}

#[test]
fn merge_appends_unknown_contexts() {
    let base = catalog(vec![context("A", vec![message("a", "A")])], vec![]);
    let incoming = catalog(
        vec![context("B", vec![message("b", "B")]), context("A", vec![message("a2", "A2")])],
        vec![],
    );
    let result = merge_ts_nodes(base, incoming, false);
    assert_eq!(result.contexts.len(), 2);
    assert_eq!(result.contexts[0].name, "A");
    assert_eq!(result.contexts[0].messages.len(), 2);
    assert_eq!(result.contexts[1].name, "B");
}

#[test]
fn merge_location_rule_distinguishes_places() {
    let mut base_msg = message("a", "A");
    base_msg.locations = vec![location("one.cpp", 1)];
    let mut incoming_msg = message("a", "A2");
    incoming_msg.locations = vec![location("two.cpp", 1)];
    let by_source = merge_messages(
        vec![base_msg.clone()],
        vec![incoming_msg.clone()],
        false,
        IdentityRule::SourceText,
    );
    assert_eq!(by_source.len(), 1);
    let by_location = merge_messages(
        vec![base_msg],
        vec![incoming_msg],
        false,
        IdentityRule::SourceTextAndLocations,
    );
    assert_eq!(by_location.len(), 2);
}

#[test]
fn merge_with_rule_matches_default_rule() {
    let base = catalog(vec![], vec![message("a", "A")]);
    let incoming = catalog(vec![], vec![message("a", "B")]);
    let a = merge_ts_nodes(base.clone(), incoming.clone(), false);
    let b = merge_ts_nodes_with_rule(base, incoming, false, IdentityRule::SourceText);
    assert_eq!(a, b);
    assert_eq!(a.messages.len(), 1);
}
