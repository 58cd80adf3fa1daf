use dotrain::ast::{
    Alias, AuthoringMeta, AuthoringMetaItem, Binding, BindingItem, ConstantBindingItem, Namespace,
    NamespaceItem, NamespaceNode, NamespaceNodeElement, Offsets, RainlangLine, RainlangSource,
};
use dotrain::completion::{
    CompletionItem, CompletionItemKind, MarkupKind, encode_prefixed, get_completion,
    search_namespace,
};
use dotrain::document::{MetaStoreView, RainDocument};
use dotrain::namespace::{Import, ImportSequence};
use dotrain::offsets::Position;

fn pos(a: usize, b: usize) -> Offsets {
    Offsets { start: a, end: b }
}

fn constant_leaf(name: &str, value: &str) -> (String, NamespaceItem) {
    (
        name.to_string(),
        NamespaceItem::Node(NamespaceNode {
            hash: String::new(),
            import_index: -1,
            element: NamespaceNodeElement::Binding(Binding {
                name: name.to_string(),
                name_position: pos(0, name.len()),
                content: value.to_string(),
                content_position: pos(0, value.len()),
                position: pos(0, value.len()),
                problems: vec![],
                dependencies: vec![],
                item: BindingItem::Constant(ConstantBindingItem { value: value.to_string() }),
            }),
        }),
    )
}

fn empty_store() -> MetaStoreView {
    MetaStoreView { dotrain_cache: vec![], meta_hashes: vec![] }
}

fn doc_with_namespace(text: &str, namespace: Namespace) -> RainDocument {
    RainDocument {
        text: text.to_string(),
        imports: vec![],
        bindings: vec![],
        namespace,
        known_words: None,
    }
}

fn root_namespace() -> Namespace {
    let foo_children = Namespace { entries: vec![constant_leaf("child", "7")] };
    Namespace {
        entries: vec![
            ("foo".to_string(), NamespaceItem::Namespace(foo_children)),
            constant_leaf("bar", "42"),
        ],
    }
}

#[test]
fn completion_after_partial_word_offers_namespace_entries() {
    let doc = doc_with_namespace("fo", root_namespace());
    let items = get_completion(
        &doc,
        "file:///doc.rain",
        Position { line: 0, character: 2 },
        MarkupKind::PlainText,
        &empty_store(),
    )
    .unwrap();
    assert!(items.iter().any(|i| i.label == "foo" && i.kind == CompletionItemKind::Field));
    assert!(items.iter().any(|i| i.label == "bar" && i.kind == CompletionItemKind::Class));
}

#[test]
fn completion_after_dot_offers_children_only() {
    let doc = doc_with_namespace("foo.", root_namespace());
    let items = get_completion(
        &doc,
        "file:///doc.rain",
        Position { line: 0, character: 4 },
        MarkupKind::PlainText,
        &empty_store(),
    )
    .unwrap();
    let labels: Vec<&str> = items.iter().map(|i| i.label.as_str()).collect();
    assert_eq!(labels, vec!["child"]);
}

#[test]
fn completion_mid_identifier_yields_none() {
    // the next character continues the word, so this is no trigger point
    let doc = doc_with_namespace("foo", root_namespace());
    let r = get_completion(
        &doc,
        "file:///doc.rain",
        Position { line: 0, character: 1 },
        MarkupKind::PlainText,
        &empty_store(),
    );
    assert!(r.is_none());
}

#[test]
fn completion_offers_opcode_words() {
    let mut doc = doc_with_namespace("", root_namespace());
    doc.known_words = Some(AuthoringMeta(vec![AuthoringMetaItem {
        word: "add".to_string(),
        description: "sums the inputs".to_string(),
    }]));
    let items = get_completion(
        &doc,
        "file:///doc.rain",
        Position { line: 0, character: 0 },
        MarkupKind::PlainText,
        &empty_store(),
    )
    .unwrap();
    let add = items.iter().find(|i| i.label == "add").unwrap();
    assert_eq!(add.kind, CompletionItemKind::Function);
    assert_eq!(add.documentation.as_deref(), Some("sums the inputs"));
}

#[test]
fn completion_on_unknown_path_yields_none() {
    let doc = doc_with_namespace("nope.", root_namespace());
    let r = get_completion(
        &doc,
        "file:///doc.rain",
        Position { line: 0, character: 5 },
        MarkupKind::PlainText,
        &empty_store(),
    );
    assert!(r.is_none());
}

#[test]
fn completion_documentation_follows_markup_kind() {
    let exp_doc = dotrain::ast::RainlangDocument {
        text: "_: add(1 2);".to_string(),
        ast: vec![],
        problems: vec![],
    };
    let ns = Namespace {
        entries: vec![(
            "expr".to_string(),
            NamespaceItem::Node(NamespaceNode {
                hash: String::new(),
                import_index: -1,
                element: NamespaceNodeElement::Binding(Binding {
                    name: "expr".to_string(),
                    name_position: pos(0, 4),
                    content: " _: add(1 2); ".to_string(),
                    content_position: pos(0, 14),
                    position: pos(0, 14),
                    problems: vec![],
                    dependencies: vec![],
                    item: BindingItem::Exp(exp_doc),
                }),
            }),
        )],
    };
    let doc = doc_with_namespace("", ns);
    let items = get_completion(
        &doc,
        "file:///doc.rain",
        Position { line: 0, character: 0 },
        MarkupKind::Markdown,
        &empty_store(),
    )
    .unwrap();
    let expr = items.iter().find(|i| i.label == "expr").unwrap();
    assert_eq!(
        expr.documentation.as_deref(),
        Some("```rainlang\n_: add(1 2);\n```"),
    );
}

#[test]
fn search_namespace_walks_segments() {
    let ns = root_namespace();
    let m = search_namespace("foo.ch", &ns).unwrap();
    assert!(m.get("child").is_some());
    // landing on a leaf yields nothing
    assert!(search_namespace("bar.x", &ns).is_none());
    // unresolved segments yield nothing
    assert!(search_namespace("quux.x", &ns).is_none());
}

#[test]
fn import_hash_completion_offers_known_documents() {
    let mut doc = doc_with_namespace("@0x", Namespace { entries: vec![] });
    doc.imports = vec![Import {
        name: ".".to_string(),
        name_position: pos(0, 0),
        hash: String::new(),
        hash_position: pos(1, 3),
        configuration: None,
        sequence: None,
        position: pos(0, 3),
    }];
    let store = MetaStoreView {
        dotrain_cache: vec![
            ("file:///other.rain".to_string(), vec![0xab, 0xcd]),
            ("file:///doc.rain".to_string(), vec![0x01]),
        ],
        meta_hashes: vec![vec![0x0f, 0x10]],
    };
    let items = get_completion(
        &doc,
        "file:///doc.rain",
        Position { line: 0, character: 3 },
        MarkupKind::PlainText,
        &store,
    )
    .unwrap();
    // the other known document is offered as its content hash
    let other = items.iter().find(|i| i.label == "file:///other.rain").unwrap();
    assert_eq!(other.kind, CompletionItemKind::File);
    assert_eq!(other.insert_text, "0xabcd");
    // the current document itself is excluded
    assert!(items.iter().all(|i| i.label != "file:///doc.rain"));
    // the partial hash also offers cached meta items
    let meta = items.iter().find(|i| i.kind == CompletionItemKind::Module).unwrap();
    assert_eq!(meta.label, "x0f10");
    assert_eq!(meta.insert_text, "0x0f10");
}

#[test]
fn import_with_typed_hash_yields_none() {
    // the first chunk is already a complete hash literal, so the later
    // chunk offers nothing
    let text = "0xabcd x";
    let mut doc = doc_with_namespace(text, Namespace { entries: vec![] });
    doc.imports = vec![Import {
        name: ".".to_string(),
        name_position: pos(0, 0),
        hash: String::new(),
        hash_position: pos(0, 6),
        configuration: None,
        sequence: None,
        position: pos(0, 8),
    }];
    let r = get_completion(
        &doc,
        "file:///doc.rain",
        Position { line: 0, character: 8 },
        MarkupKind::PlainText,
        &empty_store(),
    );
    assert!(r.is_none());
}

#[test]
fn import_configuration_offers_sub_document_namespace() {
    // cursor at the end of a configuration pair of an import with a known
    // embedded document
    let text = "@0xaa abc";
    let sub = Namespace { entries: vec![constant_leaf("inner", "5")] };
    let mut doc = doc_with_namespace(text, Namespace { entries: vec![] });
    doc.imports = vec![Import {
        name: ".".to_string(),
        name_position: pos(0, 0),
        hash: String::new(),
        hash_position: pos(1, 5),
        configuration: Some(dotrain::ast::ImportConfiguration {
            problems: vec![],
            pairs: vec![(
                dotrain::ast::ParsedItem("abc".to_string(), pos(6, 9)),
                None,
            )],
        }),
        sequence: Some(ImportSequence { dotrain: Some(sub) }),
        position: pos(0, 9),
    }];
    let items = get_completion(
        &doc,
        "file:///doc.rain",
        Position { line: 0, character: 9 },
        MarkupKind::PlainText,
        &empty_store(),
    )
    .unwrap();
    assert!(items.iter().any(|i| i.label == "inner"));
}

#[test]
fn hex_encoding_is_prefixed_and_lowercase() {
    assert_eq!(encode_prefixed(&vec![26]), "0x1a");
    assert_eq!(encode_prefixed(&vec![]), "0x");
    assert_eq!(encode_prefixed(&vec![0x00, 0xff]), "0x00ff");
}

#[test]
fn completion_is_deterministic() {
    let doc = doc_with_namespace("fo", root_namespace());
    let a: Option<Vec<CompletionItem>> = get_completion(
        &doc,
        "file:///doc.rain",
        Position { line: 0, character: 2 },
        MarkupKind::PlainText,
        &empty_store(),
    );
    let b = get_completion(
        &doc,
        "file:///doc.rain",
        Position { line: 0, character: 2 },
        MarkupKind::PlainText,
        &empty_store(),
    );
    assert_eq!(a, b);
}

#[test]
fn quoted_prefix_offers_no_opcodes() {
    // a quote mark makes this a by-name reference context: opcode words
    // are not offered, namespace entries still are
    let mut doc = doc_with_namespace("'fo", root_namespace());
    doc.known_words = Some(AuthoringMeta(vec![AuthoringMetaItem {
        word: "add".to_string(),
        description: "sums the inputs".to_string(),
    }]));
    let items = get_completion(
        &doc,
        "file:///doc.rain",
        Position { line: 0, character: 3 },
        MarkupKind::PlainText,
        &empty_store(),
    )
    .unwrap();
    assert!(items.iter().all(|i| i.label != "add"));
    assert!(items.iter().any(|i| i.label == "foo"));
}

#[test]
fn stack_alias_completions_from_preceding_lines() {
    let text = "a: 1,\nc:";
    let exp_doc = dotrain::ast::RainlangDocument {
        text: text.to_string(),
        ast: vec![RainlangSource {
            lines: vec![
                RainlangLine {
                    nodes: vec![],
                    position: pos(0, 5),
                    aliases: vec![
                        Alias { name: "a".to_string(), position: pos(0, 1), lhs_alias: None },
                        Alias { name: "_".to_string(), position: pos(0, 1), lhs_alias: None },
                    ],
                },
                RainlangLine { nodes: vec![], position: pos(6, 9), aliases: vec![] },
            ],
            position: pos(0, 9),
        }],
        problems: vec![],
    };
    let ns = Namespace { entries: vec![] };
    let mut doc = doc_with_namespace(text, ns);
    doc.bindings = vec![Binding {
        name: "b".to_string(),
        name_position: pos(0, 1),
        content: text.to_string(),
        content_position: pos(0, 9),
        position: pos(0, 9),
        problems: vec![],
        dependencies: vec![],
        item: BindingItem::Exp(exp_doc),
    }];
    let items = get_completion(
        &doc,
        "file:///doc.rain",
        Position { line: 1, character: 2 },
        MarkupKind::PlainText,
        &empty_store(),
    )
    .unwrap();
    let alias = items.iter().find(|i| i.kind == CompletionItemKind::Variable).unwrap();
    assert_eq!(alias.label, "a");
    // the placeholder alias is never offered
    assert!(items.iter().all(|i| i.label != "_"));
}
