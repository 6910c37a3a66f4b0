use qt_ts_tools::release::{compile_to_buffer, compile_with_comments, CompileError};
use qt_ts_tools::ts::{
    ContextNode, MessageNode, NumerusFormNode, TSNode, TranslationNode, TranslationType, YesNo,
};

const HEADER: [u8; 16] = [
    0x3c, 0xb8, 0x64, 0x18, 0xca, 0xef, 0x9c, 0x95, 0xcd, 0x21, 0x1c, 0xbf, 0x60, 0xa1, 0xbd, 0xdd,
];

fn translated(text: &str, status: Option<TranslationType>) -> Option<TranslationNode> {
    Some(TranslationNode {
        translation_simple: Some(text.to_owned()),
        numerus_forms: vec![],
        translation_type: status,
        variants: None,
        userdata: None,
    })
}

fn message(source: Option<&str>, translation: Option<TranslationNode>) -> MessageNode {
    MessageNode {
        source: source.map(|s| s.to_owned()),
        old_source: None,
        translation,
        locations: vec![],
        comment: None,
        old_comment: None,
        extra_comment: None,
        translator_comment: None,
        numerus: None,
        id: None,
        userdata: None,
        po_msg_id_plural: None,
        po_old_msg_id_plural: None,
        loc_flags: None,
        loc_layout_id: None,
        loc_feature: None,
        loc_blank: None,
    }
}

fn context(name: &str, messages: Vec<MessageNode>) -> ContextNode {
    ContextNode { name: name.to_owned(), messages, comment: None, encoding: None }
}

fn catalog(language: Option<&str>, contexts: Vec<ContextNode>) -> TSNode {
    TSNode {
        version: None,
        source_language: None,
        language: language.map(|s| s.to_owned()),
        contexts,
        messages: vec![],
        dependencies: None,
        comment: None,
        old_comment: None,
        extra_comment: None,
        translator_comment: None,
        po_msg_id_plural: None,
        po_old_msg_id_plural: None,
        loc_flags: None,
        loc_layout_id: None,
        loc_feature: None,
        loc_blank: None,
    }
}

fn field(tag: u8, payload: &[u8]) -> Vec<u8> {
    let mut v = vec![tag];
    v.extend_from_slice(&(payload.len() as u32).to_be_bytes());
    v.extend_from_slice(payload);
    v
}

fn utf16(s: &str) -> Vec<u8> {
    s.encode_utf16().flat_map(|u| u.to_be_bytes()).collect()
}

fn record(translation: &[u8], comment: &[u8], source: &str, ctx: &str) -> Vec<u8> {
    let mut r = translation.to_vec();
    r.extend(field(0x08, comment));
    r.extend(field(0x06, source.as_bytes()));
    r.extend(field(0x07, ctx.as_bytes()));
    r.push(0x01);
    r
}

/// Splits a compiled file into (tag, payload) blocks after the header.
fn blocks(out: &[u8]) -> Vec<(u8, Vec<u8>)> {
    assert_eq!(&out[..16], &HEADER);
    let mut i = 16;
    let mut res = vec![];
    while i < out.len() {
        let tag = out[i];
        let len = u32::from_be_bytes([out[i + 1], out[i + 2], out[i + 3], out[i + 4]]) as usize;
        res.push((tag, out[i + 5..i + 5 + len].to_vec()));
        i += 5 + len;
    }
    res
}

#[test]
fn compile_single_message_exact_bytes() {
    let data = catalog(Some("fr"), vec![context("C", vec![message(Some("Hi"), translated("Salut", None))])]);
    let out = compile_to_buffer(&data).unwrap();
    let rec = record(&field(0x03, &utf16("Salut")), &[], "Hi", "C");
    assert_eq!(rec.len(), 34);
    let mut expected = HEADER.to_vec();
    expected.extend(field(0xa7, b"fr"));
    expected.extend(field(0x42, &[0, 0, 0x04, 0xe9, 0, 0, 0, 0]));
    expected.extend(field(0x69, &rec));
    expected.extend(field(0x88, &[0x03, 0x01]));
    assert_eq!(out, expected);
}

#[test]
fn compile_without_language_fails() {
    let data = catalog(None, vec![context("C", vec![message(Some("Hi"), translated("Salut", None))])]);
    assert_eq!(compile_to_buffer(&data), Err(CompileError::MissingLanguage));
}

#[test]
fn compile_without_source_fails() {
    let data = catalog(Some("de"), vec![context("C", vec![message(None, translated("x", None))])]);
    assert_eq!(compile_to_buffer(&data), Err(CompileError::MissingSource));
}

#[test]
fn compile_ignores_missing_source_of_dropped_message() {
    let data = catalog(
        Some("de"),
        vec![context("C", vec![message(None, translated("x", Some(TranslationType::Obsolete)))])],
    );
    assert!(compile_to_buffer(&data).is_ok());
}

#[test]
fn compile_filters_obsolete_and_vanished() {
    let data = catalog(
        Some("xx"),
        vec![
            context("A", vec![message(Some("a"), translated("x", Some(TranslationType::Obsolete)))]),
            context("B", vec![message(Some("b"), translated("y", Some(TranslationType::Vanished)))]),
        ],
    );
    let out = compile_to_buffer(&data).unwrap();
    let bs = blocks(&out);
    assert_eq!(bs.len(), 4);
    assert_eq!(bs[0], (0xa7, b"xx".to_vec()));
    assert_eq!(bs[1], (0x42, vec![]));
    assert_eq!(bs[2], (0x69, vec![]));
    // An unknown language has no plural rules.
    assert_eq!(bs[3], (0x88, vec![]));
}

#[test]
fn compile_hash_table_is_sorted_by_hash() {
    let msgs = vec![
        message(Some("zebra"), translated("1", None)),
        message(Some("a"), translated("2", None)),
        message(Some("source"), translated("3", Some(TranslationType::Unfinished))),
        message(Some("mm"), translated("4", Some(TranslationType::Finished))),
    ];
    let data = catalog(Some("en"), vec![context("C", msgs)]);
    let out = compile_to_buffer(&data).unwrap();
    let bs = blocks(&out);
    let table = &bs[1].1;
    assert_eq!(table.len(), 32);
    let hashes: Vec<u32> = table
        .chunks(8)
        .map(|c| u32::from_be_bytes([c[0], c[1], c[2], c[3]]))
        .collect();
    let mut sorted = hashes.clone();
    sorted.sort();
    assert_eq!(hashes, sorted);
    assert!(hashes.contains(&0x07a6c895));
    assert_eq!(bs[3], (0x88, vec![0x01, 0x01]));
}

#[test]
fn compile_orders_contexts_and_numerus_messages() {
    let mut plural = message(Some("%n files"), None);
    plural.numerus = Some(YesNo::Yes);
    plural.translation = Some(TranslationNode {
        translation_simple: None,
        numerus_forms: vec![
            NumerusFormNode { text: "%n fichier".to_owned(), variants: None },
            NumerusFormNode { text: "%n fichiers".to_owned(), variants: None },
        ],
        translation_type: None,
        variants: None,
        userdata: None,
    });
    let plain = message(Some("Open"), None);
    let data = catalog(
        Some("fr"),
        vec![context("b", vec![message(Some("x"), translated("X", None))]), context("B", vec![plain, plural])],
    );
    let out = compile_to_buffer(&data).unwrap();
    let bs = blocks(&out);
    let mut forms = field(0x03, &utf16("%n fichier"));
    forms.extend(field(0x03, &utf16("%n fichiers")));
    let mut none = vec![0x03];
    none.extend_from_slice(&[0xff, 0xff, 0xff, 0xff]);
    let mut expected = record(&forms, &[], "%n files", "B");
    expected.extend(record(&none, &[], "Open", "B"));
    expected.extend(record(&field(0x03, &utf16("X")), &[], "x", "b"));
    assert_eq!(bs[2], (0x69, expected));
}

#[test]
fn compile_with_comments_fills_comment_field() {
    let mut m = message(Some("Hi"), translated("Salut", None));
    m.comment = Some("greeting".to_owned());
    let data = catalog(Some("fr"), vec![context("C", vec![m])]);
    let with = compile_with_comments(&data, true).unwrap();
    let without = compile_with_comments(&data, false).unwrap();
    let rec_with = record(&field(0x03, &utf16("Salut")), b"greeting", "Hi", "C");
    let rec_without = record(&field(0x03, &utf16("Salut")), &[], "Hi", "C");
    assert_eq!(blocks(&with)[2], (0x69, rec_with));
    assert_eq!(blocks(&without)[2], (0x69, rec_without));
}

#[test]
fn compile_encodes_non_bmp_text_as_surrogates() {
    let data = catalog(Some("sv"), vec![context("C", vec![message(Some("é"), translated("a😀", None))])]);
    let out = compile_to_buffer(&data).unwrap();
    let bs = blocks(&out);
    let rec = record(&field(0x03, &[0x00, 0x61, 0xd8, 0x3d, 0xde, 0x00]), &[], "é", "C");
    assert_eq!(bs[2], (0x69, rec));
    assert_eq!(bs[3], (0x88, vec![0x01, 0x01]));
}
