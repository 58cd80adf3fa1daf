use dotrain::ast::{
    Binding, BindingItem, ConstantBindingItem, DispairImportItem, ElidedBindingItem, ErrorCode,
    ImportConfiguration, Namespace, NamespaceItem, NamespaceNode, NamespaceNodeElement, Offsets,
    ParsedItem,
};
use dotrain::binding::{ClassifiedBinding, classify_binding_content, validate_quote, validate_reference};
use dotrain::deps::detect_cycles;
use dotrain::error::Error;
use dotrain::namespace::{
    ImportContent, KnownMagic, MetaElement, MetaItem, apply_configuration, is_consumable,
    materialize_items, merge_level, resolve_import, retag,
};
use dotrain::number::{Uint256, binary_to_u256, e_to_u256, hex_to_u256, to_u256};

fn pos(a: usize, b: usize) -> Offsets {
    Offsets { start: a, end: b }
}

fn constant_binding(name: &str, value: &str) -> Binding {
    Binding {
        name: name.to_string(),
        name_position: pos(0, name.len()),
        content: value.to_string(),
        content_position: pos(0, value.len()),
        position: pos(0, value.len()),
        problems: vec![],
        dependencies: vec![],
        item: BindingItem::Constant(ConstantBindingItem { value: value.to_string() }),
    }
}

fn leaf(name: &str, value: &str) -> (String, NamespaceItem) {
    (
        name.to_string(),
        NamespaceItem::Node(NamespaceNode {
            hash: String::new(),
            import_index: -1,
            element: NamespaceNodeElement::Binding(constant_binding(name, value)),
        }),
    )
}

#[test]
fn to_u256_normalizes_hex() {
    assert_eq!(to_u256("0x1a").unwrap(), Uint256::from_u64(26));
}

#[test]
fn to_u256_normalizes_binary() {
    assert_eq!(to_u256("0b101").unwrap(), Uint256::from_u64(5));
}

#[test]
fn to_u256_normalizes_scientific() {
    assert_eq!(to_u256("12e2").unwrap(), Uint256::from_u64(1200));
}

#[test]
fn to_u256_normalizes_decimal() {
    assert_eq!(to_u256("42").unwrap(), Uint256::from_u64(42));
}

#[test]
fn to_u256_rejects_bad_hex_digits() {
    assert_eq!(to_u256("0xzz"), Err(Error::InvalidNumber));
}

#[test]
fn to_u256_rejects_exponent_without_mantissa() {
    assert_eq!(to_u256("e5"), Err(Error::InvalidNumber));
}

#[test]
fn to_u256_reports_overflow() {
    // one followed by seventy-eight zero digits does not fit 256 bits
    assert_eq!(to_u256("1e78"), Err(Error::NumberOverflow));
}

#[test]
fn to_u256_zero_mantissa_survives_huge_exponent() {
    assert_eq!(to_u256("0e99999").unwrap(), Uint256::zero());
}

#[test]
fn to_u256_is_deterministic() {
    assert_eq!(to_u256("12e2"), to_u256("12e2"));
}

#[test]
fn hex_to_u256_accepts_bare_digits() {
    assert_eq!(hex_to_u256("ff").unwrap(), Uint256::from_u64(255));
    assert_eq!(hex_to_u256("0xff").unwrap(), Uint256::from_u64(255));
}

#[test]
fn binary_to_u256_rejects_empty_digits() {
    assert_eq!(binary_to_u256("0b"), Err(Error::InvalidNumber));
}

#[test]
fn e_to_u256_expands_zeroes() {
    assert_eq!(e_to_u256("7e3").unwrap(), Uint256::from_u64(7000));
}

#[test]
fn uint256_mul_add_carries() {
    let big = Uint256 { limb0: u64::MAX, limb1: 0, limb2: 0, limb3: 0 };
    let r = big.mul_add(2, 2).unwrap();
    assert_eq!(r, Uint256 { limb0: 0, limb1: 2, limb2: 0, limb3: 0 });
}

#[test]
fn uint256_mul_add_overflows() {
    let top = Uint256 { limb0: u64::MAX, limb1: u64::MAX, limb2: u64::MAX, limb3: u64::MAX };
    assert_eq!(top.mul_add(2, 0), None);
}

#[test]
fn consumable_accepts_single_document_item() {
    let items = vec![MetaItem { magic: KnownMagic::DotrainV1, element: MetaElement::Opaque }];
    assert!(is_consumable(&items));
}

#[test]
fn consumable_rejects_two_deployer_items() {
    let items = vec![
        MetaItem {
            magic: KnownMagic::ExpressionDeployerV2BytecodeV1,
            element: MetaElement::Opaque,
        },
        MetaItem {
            magic: KnownMagic::ExpressionDeployerV2BytecodeV1,
            element: MetaElement::Opaque,
        },
    ];
    assert!(!is_consumable(&items));
}

#[test]
fn consumable_rejects_empty_and_unknown_only() {
    assert!(!is_consumable(&vec![]));
    let items = vec![MetaItem { magic: KnownMagic::Other, element: MetaElement::Opaque }];
    assert!(!is_consumable(&items));
}

#[test]
fn merge_keeps_existing_entries() {
    let dst = Namespace { entries: vec![leaf("a", "1")] };
    let src = Namespace { entries: vec![leaf("a", "2"), leaf("b", "3")] };
    let (merged, problems) = merge_level(dst, src, pos(0, 1));
    assert!(problems.is_empty());
    // the occupied name keeps its first value, the free name is taken
    let a = merged.get("a").unwrap();
    if let NamespaceItem::Node(n) = a {
        assert_eq!(n.unwrap_constant_binding(), "1");
    } else {
        panic!("expected a leaf");
    }
    assert!(merged.get("b").is_some());
}

#[test]
fn merge_same_import_twice_is_idempotent() {
    let dst = Namespace { entries: vec![leaf("a", "1"), leaf("b", "2")] };
    let src = Namespace { entries: vec![leaf("a", "1"), leaf("b", "2")] };
    let (merged, problems) = merge_level(dst, src, pos(0, 1));
    assert!(problems.is_empty());
    assert_eq!(merged.entries, vec![leaf("a", "1"), leaf("b", "2")]);
}

#[test]
fn merge_reports_occupied_on_kind_clash() {
    let dst = Namespace { entries: vec![leaf("a", "1")] };
    let src = Namespace {
        entries: vec![("a".to_string(), NamespaceItem::Namespace(Namespace { entries: vec![] }))],
    };
    let (merged, problems) = merge_level(dst, src, pos(3, 7));
    assert_eq!(problems.len(), 1);
    assert_eq!(problems[0].code, ErrorCode::NamespaceOccupied);
    assert_eq!(problems[0].position, pos(3, 7));
    // the existing entry stays
    assert!(matches!(merged.get("a"), Some(NamespaceItem::Node(_))));
}

#[test]
fn retag_rewrites_hash_and_index() {
    let ns = Namespace { entries: vec![leaf("a", "1")] };
    let hash = "0xabc".to_string();
    let tagged = retag(ns, &hash, 4);
    if let Some(NamespaceItem::Node(n)) = tagged.get("a") {
        assert_eq!(n.hash, "0xabc");
        assert_eq!(n.import_index, 4);
    } else {
        panic!("expected a leaf");
    }
}

fn dispair_payload() -> DispairImportItem {
    DispairImportItem {
        constructor_meta_hash: vec![1, 2],
        constructor_meta_bytes: vec![3],
        parser: vec![4],
        store: vec![5],
        interpreter: vec![6],
        bytecode: vec![7],
        authoring_meta: None,
    }
}

#[test]
fn materialize_exposes_deployer_under_dispair() {
    let items = vec![MetaItem {
        magic: KnownMagic::ExpressionDeployerV2BytecodeV1,
        element: MetaElement::Dispair(dispair_payload()),
    }];
    let hash = "0xhash".to_string();
    let ns = materialize_items(items, &hash, 2);
    if let Some(NamespaceItem::Node(n)) = ns.get("dispair") {
        assert_eq!(n.hash, "0xhash");
        assert_eq!(n.import_index, 2);
        assert!(n.is_dispair());
    } else {
        panic!("expected the deployer leaf");
    }
}

#[test]
fn resolve_import_guards_depth() {
    let ns = Namespace { entries: vec![] };
    let hash = "0xaa".to_string();
    let (out, problems) = resolve_import(
        ns,
        "0xdoc",
        &hash,
        &vec![],
        ImportContent::Unresolved,
        0,
        33,
        pos(1, 2),
        pos(0, 4),
    );
    assert_eq!(problems.len(), 1);
    assert_eq!(problems[0].code, ErrorCode::DeepImport);
    assert_eq!(problems[0].position, pos(1, 2));
    assert!(out.entries.is_empty());
}

#[test]
fn resolve_import_rejects_self_reference() {
    let ns = Namespace { entries: vec![] };
    let hash = "0xdoc".to_string();
    let (_, problems) = resolve_import(
        ns,
        "0xdoc",
        &hash,
        &vec![],
        ImportContent::Unresolved,
        0,
        0,
        pos(1, 2),
        pos(0, 4),
    );
    assert_eq!(problems.len(), 1);
    assert_eq!(problems[0].code, ErrorCode::InvalidSelfReference);
}

#[test]
fn resolve_import_reports_store_miss() {
    let ns = Namespace { entries: vec![] };
    let hash = "0xaa".to_string();
    let (_, problems) = resolve_import(
        ns,
        "0xdoc",
        &hash,
        &vec![],
        ImportContent::Unresolved,
        0,
        0,
        pos(1, 2),
        pos(0, 4),
    );
    assert_eq!(problems.len(), 1);
    assert_eq!(problems[0].code, ErrorCode::UnresolvableDependencies);
}

#[test]
fn resolve_import_reports_corrupt_meta() {
    let ns = Namespace { entries: vec![] };
    let hash = "0xaa".to_string();
    let (_, problems) = resolve_import(
        ns,
        "0xdoc",
        &hash,
        &vec![],
        ImportContent::Corrupt,
        0,
        0,
        pos(1, 2),
        pos(0, 4),
    );
    assert_eq!(problems.len(), 1);
    assert_eq!(problems[0].code, ErrorCode::CorruptMeta);
}

#[test]
fn resolve_import_rejects_inconsumable_sequence() {
    let ns = Namespace { entries: vec![] };
    let hash = "0xaa".to_string();
    let items = vec![
        MetaItem {
            magic: KnownMagic::ExpressionDeployerV2BytecodeV1,
            element: MetaElement::Dispair(dispair_payload()),
        },
        MetaItem {
            magic: KnownMagic::ExpressionDeployerV2BytecodeV1,
            element: MetaElement::Dispair(dispair_payload()),
        },
    ];
    let (_, problems) = resolve_import(
        ns,
        "0xdoc",
        &hash,
        &vec![],
        ImportContent::Sequence(items),
        0,
        0,
        pos(1, 2),
        pos(0, 4),
    );
    assert_eq!(problems.len(), 1);
    assert_eq!(problems[0].code, ErrorCode::InconsumableMeta);
}

#[test]
fn resolve_import_merges_document_namespace() {
    let ns = Namespace { entries: vec![] };
    let hash = "0xaa".to_string();
    let sub = Namespace { entries: vec![leaf("k", "9")] };
    let items = vec![MetaItem { magic: KnownMagic::DotrainV1, element: MetaElement::Dotrain(sub) }];
    let (out, problems) = resolve_import(
        ns,
        "0xdoc",
        &hash,
        &vec![],
        ImportContent::Sequence(items),
        3,
        0,
        pos(1, 2),
        pos(0, 4),
    );
    assert!(problems.is_empty());
    if let Some(NamespaceItem::Node(n)) = out.get("k") {
        assert_eq!(n.hash, "0xaa");
        assert_eq!(n.import_index, 3);
    } else {
        panic!("expected the imported binding");
    }
}

#[test]
fn resolve_import_at_dotted_path() {
    let ns = Namespace { entries: vec![] };
    let hash = "0xaa".to_string();
    let sub = Namespace { entries: vec![leaf("k", "9")] };
    let items = vec![MetaItem { magic: KnownMagic::DotrainV1, element: MetaElement::Dotrain(sub) }];
    let path = vec!["lib".to_string()];
    let (out, problems) = resolve_import(
        ns,
        "0xdoc",
        &hash,
        &path,
        ImportContent::Sequence(items),
        0,
        0,
        pos(1, 2),
        pos(0, 4),
    );
    assert!(problems.is_empty());
    if let Some(NamespaceItem::Namespace(sub)) = out.get("lib") {
        assert!(sub.get("k").is_some());
    } else {
        panic!("expected the nested namespace");
    }
}

#[test]
fn cycle_detection_reports_exactly_one_problem() {
    let mut a = constant_binding("a", "'b");
    a.item = BindingItem::Elided(ElidedBindingItem { msg: String::new() });
    a.dependencies = vec!["b".to_string()];
    a.content = "'b".to_string();
    a.content_position = pos(10, 12);
    let mut b = constant_binding("b", "'a");
    b.item = BindingItem::Elided(ElidedBindingItem { msg: String::new() });
    b.dependencies = vec!["a".to_string()];
    b.content = "'a".to_string();
    b.content_position = pos(20, 22);
    let problems = detect_cycles(&vec![a, b]);
    assert_eq!(problems.len(), 1);
    assert_eq!(problems[0].code, ErrorCode::CircularDependencyQuote);
    // positioned at the quoting token found by the second traversal step
    assert_eq!(problems[0].position, pos(20, 22));
}

#[test]
fn cycle_detection_passes_acyclic_graph() {
    let mut a = constant_binding("a", "'b");
    a.dependencies = vec!["b".to_string()];
    let b = constant_binding("b", "1");
    let problems = detect_cycles(&vec![a, b]);
    assert!(problems.is_empty());
}

#[test]
fn classify_elided_binding() {
    let r = classify_binding_content("  ! not deployable yet ");
    assert_eq!(r, ClassifiedBinding::Elided("not deployable yet".to_string()));
}

#[test]
fn classify_constant_binding() {
    let r = classify_binding_content(" 0x2a ");
    assert_eq!(r, ClassifiedBinding::Constant("0x2a".to_string()));
}

#[test]
fn classify_expression_binding() {
    let r = classify_binding_content("_: add(1 2);");
    assert_eq!(r, ClassifiedBinding::Expression);
}

#[test]
fn classification_is_deterministic() {
    assert_eq!(classify_binding_content(" 42 "), classify_binding_content(" 42 "));
}

#[test]
fn quote_of_constant_is_invalid() {
    let (_, item) = leaf("a", "1");
    let p = validate_quote(&item, "a", pos(0, 2)).unwrap();
    assert_eq!(p.code, ErrorCode::InvalidQuote);
    assert_eq!(p.msg, "invalid quote: a, cannot quote constants");
}

#[test]
fn quote_of_elided_is_accepted() {
    let mut b = constant_binding("a", "!");
    b.item = BindingItem::Elided(ElidedBindingItem { msg: String::new() });
    let item = NamespaceItem::Node(NamespaceNode {
        hash: String::new(),
        import_index: -1,
        element: NamespaceNodeElement::Binding(b),
    });
    assert!(validate_quote(&item, "a", pos(0, 2)).is_none());
}

#[test]
fn reference_to_constant_is_accepted() {
    let (_, item) = leaf("a", "1");
    assert!(validate_reference(&item, "a", pos(0, 2)).is_none());
}

#[test]
fn reference_to_elided_is_invalid() {
    let mut b = constant_binding("a", "!");
    b.item = BindingItem::Elided(ElidedBindingItem { msg: String::new() });
    let item = NamespaceItem::Node(NamespaceNode {
        hash: String::new(),
        import_index: -1,
        element: NamespaceNodeElement::Binding(b),
    });
    let p = validate_reference(&item, "a", pos(0, 2)).unwrap();
    assert_eq!(p.code, ErrorCode::InvalidReference);
    assert_eq!(p.msg, "invalid reference to binding: a, only constant bindings can be referenced");
}

#[test]
fn configuration_rebinds_constant() {
    let ns = Namespace { entries: vec![leaf("a", "1")] };
    let config = ImportConfiguration {
        problems: vec![],
        pairs: vec![(
            ParsedItem("a".to_string(), pos(0, 1)),
            Some(ParsedItem("9".to_string(), pos(2, 3))),
        )],
    };
    let (out, problems) = apply_configuration(ns, &config);
    assert!(problems.is_empty());
    if let Some(NamespaceItem::Node(n)) = out.get("a") {
        assert_eq!(n.unwrap_constant_binding(), "9");
    } else {
        panic!("expected the rebound constant");
    }
}

#[test]
fn configuration_renames_quoted_target() {
    let ns = Namespace { entries: vec![leaf("a", "1")] };
    let config = ImportConfiguration {
        problems: vec![],
        pairs: vec![(
            ParsedItem("'a".to_string(), pos(0, 2)),
            Some(ParsedItem("b".to_string(), pos(3, 4))),
        )],
    };
    let (out, problems) = apply_configuration(ns, &config);
    assert!(problems.is_empty());
    assert!(out.get("a").is_none());
    assert!(out.get("b").is_some());
}

#[test]
fn configuration_reports_unknown_target() {
    let ns = Namespace { entries: vec![] };
    let config = ImportConfiguration {
        problems: vec![],
        pairs: vec![(
            ParsedItem("missing".to_string(), pos(0, 7)),
            Some(ParsedItem("9".to_string(), pos(8, 9))),
        )],
    };
    let (_, problems) = apply_configuration(ns, &config);
    assert_eq!(problems.len(), 1);
    assert_eq!(problems[0].code, ErrorCode::UndefinedIdentifier);
}

#[test]
fn error_code_numeric_values() {
    assert_eq!(ErrorCode::IllegalChar.to_i32(), 0);
    assert_eq!(ErrorCode::UndefinedWord.to_i32(), 0x101);
    assert_eq!(ErrorCode::DuplicateImport.to_i32(), 0x704);
}

#[test]
fn to_problem_renders_templates() {
    let p = ErrorCode::IllegalChar.to_problem(vec![";"], pos(4, 5));
    assert_eq!(p.msg, "illegal character: ;");
    assert_eq!(p.position, pos(4, 5));
    assert_eq!(p.code, ErrorCode::IllegalChar);
    let q = ErrorCode::UndefinedWord.to_problem(vec!["foo"], pos(0, 3));
    assert_eq!(q.msg, "undefined word: foo");
    let r = ErrorCode::UnexpectedToken.to_problem(vec![], pos(0, 1));
    assert_eq!(r.msg, "");
}

#[test]
fn namespace_node_accessors() {
    let (_, item) = leaf("a", "1");
    assert!(item.is_node());
    assert!(item.is_binding());
    assert!(item.is_constant_binding());
    assert!(!item.is_dispair());
    assert!(!item.is_elided_binding());
    assert!(!item.is_exp_binding());
    assert_eq!(item.unwrap_constant_binding(), "1");
    let node = item.unwrap_node();
    assert!(node.is_binding());
    assert!(node.is_constant_binding());
    assert_eq!(node.unwrap_binding().name, "a");
}

#[test]
fn namespace_wf_check() {
    let good = Namespace { entries: vec![leaf("a", "1"), leaf("b", "2")] };
    assert!(good.check_wf());
    let dup = Namespace { entries: vec![leaf("a", "1"), leaf("a", "2")] };
    assert!(!dup.check_wf());
    let nested_dup = Namespace {
        entries: vec![(
            "outer".to_string(),
            NamespaceItem::Namespace(Namespace { entries: vec![leaf("x", "1"), leaf("x", "2")] }),
        )],
    };
    assert!(!nested_dup.check_wf());
}

#[test]
fn resolve_import_guards_namespace_depth() {
    let ns = Namespace { entries: vec![] };
    let hash = "0xaa".to_string();
    let sub = Namespace { entries: vec![leaf("k", "9")] };
    let items = vec![MetaItem { magic: KnownMagic::DotrainV1, element: MetaElement::Dotrain(sub) }];
    let path: Vec<String> = (0..33).map(|i| format!("s{}", i)).collect();
    let (out, problems) = resolve_import(
        ns,
        "0xdoc",
        &hash,
        &path,
        ImportContent::Sequence(items),
        0,
        0,
        pos(1, 2),
        pos(0, 4),
    );
    assert_eq!(problems.len(), 1);
    assert_eq!(problems[0].code, ErrorCode::DeepNamespace);
    assert!(out.entries.is_empty());
}

#[test]
fn two_imports_share_a_path() {
    // a second import into an existing path merges into the same nested
    // namespace instead of colliding with it
    let hash_a = "0xaa".to_string();
    let hash_b = "0xbb".to_string();
    let path = vec!["lib".to_string()];
    let first = vec![MetaItem {
        magic: KnownMagic::DotrainV1,
        element: MetaElement::Dotrain(Namespace { entries: vec![leaf("a", "1")] }),
    }];
    let second = vec![MetaItem {
        magic: KnownMagic::DotrainV1,
        element: MetaElement::Dotrain(Namespace { entries: vec![leaf("b", "2")] }),
    }];
    let (ns1, p1) = resolve_import(
        Namespace { entries: vec![] },
        "0xdoc",
        &hash_a,
        &path,
        ImportContent::Sequence(first),
        0,
        0,
        pos(0, 1),
        pos(0, 1),
    );
    assert!(p1.is_empty());
    let (ns2, p2) = resolve_import(
        ns1,
        "0xdoc",
        &hash_b,
        &path,
        ImportContent::Sequence(second),
        1,
        0,
        pos(0, 1),
        pos(0, 1),
    );
    assert!(p2.is_empty());
    if let Some(NamespaceItem::Namespace(lib)) = ns2.get("lib") {
        assert!(lib.get("a").is_some());
        assert!(lib.get("b").is_some());
    } else {
        panic!("expected the shared nested namespace");
    }
}

#[test]
fn hex_to_u256_rejects_prefix_alone() {
    assert_eq!(hex_to_u256("0x"), Err(Error::InvalidNumber));
}

#[test]
fn error_code_from_i32_round_trips() {
    assert_eq!(ErrorCode::from_i32(0), Some(ErrorCode::IllegalChar));
    assert_eq!(ErrorCode::from_i32(0x101), Some(ErrorCode::UndefinedWord));
    assert_eq!(ErrorCode::from_i32(0x704), Some(ErrorCode::DuplicateImport));
    assert_eq!(ErrorCode::from_i32(0x999), None);
    assert_eq!(ErrorCode::from_i32(ErrorCode::DeepNamespace.to_i32()), Some(ErrorCode::DeepNamespace));
}
