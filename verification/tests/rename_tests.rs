use object_tree_transform::rename::rename_component_from_definition;
use object_tree_transform::rename::symbol_export_names;
use object_tree_transform::rename::RenameError;
use object_tree_transform::syntax::ComponentDecl;
use object_tree_transform::syntax::ExportAlias;
use object_tree_transform::syntax::ExportSpecifier;
use object_tree_transform::syntax::ExportsList;
use object_tree_transform::syntax::ImportAlias;
use object_tree_transform::syntax::ImportIdentifier;
use object_tree_transform::syntax::ImportSpecifier;
use object_tree_transform::syntax::SourceDocument;
use object_tree_transform::syntax::Span;
use object_tree_transform::syntax::SubNode;
use object_tree_transform::syntax::SyntaxElement;
use object_tree_transform::syntax::TextEdit;
use object_tree_transform::syntax::Workspace;

/// Byte span of the `n`-th occurrence (0-based) of `pat` in `src`.
fn nth_span(src: &str, pat: &str, n: usize) -> Span {
    let mut from = 0usize;
    let mut left = n;
    loop {
        let at = src[from..].find(pat).expect("pattern occurrence") + from;
        if left == 0 {
            return Span { start: at, end: at + pat.len() };
        }
        left -= 1;
        from = at + pat.len();
    }
}

fn leaf(src: &str, pat: &str, n: usize) -> SyntaxElement {
    SyntaxElement {
        qualified_name: Some(pat.to_string()),
        qualified_name_span: nth_span(src, pat, n),
        children: vec![],
    }
}

fn node(src: &str, pat: &str, n: usize, children: Vec<SubNode>) -> SyntaxElement {
    SyntaxElement {
        qualified_name: Some(pat.to_string()),
        qualified_name_span: nth_span(src, pat, n),
        children,
    }
}

fn anon(children: Vec<SubNode>) -> SyntaxElement {
    SyntaxElement {
        qualified_name: None,
        qualified_name_span: Span { start: 0, end: 0 },
        children,
    }
}

fn strings(names: &[&str]) -> Vec<String> {
    names.iter().map(|s| s.to_string()).collect()
}

fn empty_doc(path: &str) -> SourceDocument {
    SourceDocument {
        path: path.to_string(),
        is_builtin: false,
        components: vec![],
        exports: vec![],
        imports: vec![],
        local_types: vec![],
        local_elements: vec![],
    }
}

/// Apply the edit set to the sources; returns the indices of the
/// documents that received at least one edit.
fn apply_edits(sources: &mut Vec<String>, edits: &Vec<TextEdit>) -> Vec<usize> {
    let mut changed: Vec<usize> = vec![];
    for d in 0..sources.len() {
        let mut mine: Vec<(usize, usize, String)> = edits
            .iter()
            .filter(|e| e.doc == d)
            .map(|e| {
                (
                    e.span.start,
                    e.span.end,
                    e.new_text.clone().unwrap_or_default(),
                )
            })
            .collect();
        if mine.is_empty() {
            continue;
        }
        changed.push(d);
        mine.sort_by(|a, b| b.0.cmp(&a.0));
        mine.dedup();
        for (start, end, text) in mine {
            sources[d].replace_range(start..end, &text);
        }
    }
    changed
}

const MAIN_OK: &str = r#"
component Foo { }

component Baz {
    Foo { }
}

export component Bar {
    Foo { }
    Rectangle {
        Foo { }
        Baz { }
    }

    if true: Rectangle {
        Foo { }
    }

    for i in [1, 2, 3]: Foo { }
}
"#;

fn main_ok_doc() -> SourceDocument {
    let s = MAIN_OK;
    SourceDocument {
        path: "/test/main.slint".to_string(),
        is_builtin: false,
        components: vec![
            ComponentDecl {
                name: "Foo".to_string(),
                name_span: nth_span(s, "Foo", 0),
                root: anon(vec![]),
            },
            ComponentDecl {
                name: "Baz".to_string(),
                name_span: nth_span(s, "Baz", 0),
                root: anon(vec![SubNode::Sub(leaf(s, "Foo", 1))]),
            },
        ],
        exports: vec![ExportsList {
            specifiers: vec![],
            component: Some(ComponentDecl {
                name: "Bar".to_string(),
                name_span: nth_span(s, "Bar", 0),
                root: anon(vec![
                    SubNode::Sub(leaf(s, "Foo", 2)),
                    SubNode::Sub(node(
                        s,
                        "Rectangle",
                        0,
                        vec![
                            SubNode::Sub(leaf(s, "Foo", 3)),
                            SubNode::Sub(leaf(s, "Baz", 1)),
                        ],
                    )),
                    SubNode::Conditional(node(
                        s,
                        "Rectangle",
                        1,
                        vec![SubNode::Sub(leaf(s, "Foo", 4))],
                    )),
                    SubNode::Repeated(leaf(s, "Foo", 5)),
                ]),
            }),
            struct_names: vec![],
            enum_names: vec![],
        }],
        imports: vec![],
        local_types: strings(&["Foo", "Baz", "Bar", "Rectangle", "HorizontalLayout"]),
        local_elements: vec![],
    }
}

#[test]
fn test_rename_component_from_definition_ok() {
    let w = Workspace { documents: vec![main_ok_doc()] };
    let decl_span = nth_span(MAIN_OK, "Foo", 0);
    let edit = rename_component_from_definition(
        &w,
        0,
        decl_span,
        &"Foo".to_string(),
        "XxxYyyZzz".to_string(),
    )
    .unwrap();

    let mut sources = vec![MAIN_OK.to_string()];
    let changed = apply_edits(&mut sources, &edit);
    assert_eq!(changed.len(), 1);
    assert!(sources[0].contains("XxxYyyZzz"));
    assert!(!sources[0].contains("Foo"));
}

const RENAMING_EXPORT_MAIN: &str = r#"
import { FExport} from "source.slint";

export component Foo {
    FExport { }
}
"#;

const RENAMING_EXPORT_SOURCE: &str = r#"
component Foo { }

export { Foo as FExport }
"#;

#[test]
fn test_rename_component_from_definition_with_renaming_export_ok() {
    // The importer comes before the document it imports from.
    let main = SourceDocument {
        path: "/test/main.slint".to_string(),
        is_builtin: false,
        components: vec![],
        exports: vec![ExportsList {
            specifiers: vec![],
            component: Some(ComponentDecl {
                name: "Foo".to_string(),
                name_span: nth_span(RENAMING_EXPORT_MAIN, "Foo", 0),
                root: anon(vec![SubNode::Sub(leaf(RENAMING_EXPORT_MAIN, "FExport", 1))]),
            }),
            struct_names: vec![],
            enum_names: vec![],
        }],
        imports: vec![ImportSpecifier {
            resolved_path: "/test/source.slint".to_string(),
            identifiers: vec![ImportIdentifier {
                external: "FExport".to_string(),
                external_span: nth_span(RENAMING_EXPORT_MAIN, "FExport", 0),
                internal: None,
            }],
        }],
        local_types: strings(&["Foo", "FExport"]),
        local_elements: vec![],
    };
    let s = RENAMING_EXPORT_SOURCE;
    let source = SourceDocument {
        path: "/test/source.slint".to_string(),
        is_builtin: false,
        components: vec![ComponentDecl {
            name: "Foo".to_string(),
            name_span: nth_span(s, "Foo", 0),
            root: anon(vec![]),
        }],
        exports: vec![ExportsList {
            specifiers: vec![ExportSpecifier {
                internal: "Foo".to_string(),
                internal_span: nth_span(s, "Foo", 1),
                external: Some(ExportAlias {
                    name: "FExport".to_string(),
                    end: nth_span(s, "FExport", 0).end,
                }),
            }],
            component: None,
            struct_names: vec![],
            enum_names: vec![],
        }],
        imports: vec![],
        local_types: strings(&["Foo"]),
        local_elements: vec![],
    };
    let w = Workspace { documents: vec![main, source] };

    let edit = rename_component_from_definition(
        &w,
        1,
        nth_span(s, "Foo", 0),
        &"Foo".to_string(),
        "XxxYyyZzz".to_string(),
    )
    .unwrap();

    let mut sources = vec![RENAMING_EXPORT_MAIN.to_string(), s.to_string()];
    let changed = apply_edits(&mut sources, &edit);
    assert_eq!(changed.len(), 1);
    assert_eq!(changed[0], 1);
    assert!(sources[1].contains("XxxYyyZzz"));
    assert!(!sources[1].contains("Foo"));
}

const EXPORT_MAIN: &str = r#"
import { Foo } from "source.slint";
import { UserComponent } from "user.slint";
import { User2Component } from "user2.slint";
import { Foo as User3Fxx } from "user3.slint";
import { User4Fxx } from "user4.slint";

export component Main {
    Foo { }
    UserComponent { }
    User2Component { }
}
"#;

const EXPORT_SOURCE: &str = r#"
export component Foo { }
"#;

const EXPORT_USER: &str = r#"
import { Foo as Bar } from "source.slint";

export component UserComponent {
    Bar { }
}

export { Bar }
"#;

const EXPORT_USER2: &str = r#"
import { Foo as XxxYyyZzz } from "source.slint";

export component User2Component {
    XxxYyyZzz { }
}
"#;

const EXPORT_USER3: &str = r#"
import { Foo } from "source.slint";

export { Foo }
"#;

const EXPORT_USER4: &str = r#"
import { Foo } from "source.slint";

export { Foo as User4Fxx }
"#;

fn export_ok_workspace() -> Workspace {
    let main = SourceDocument {
        path: "/test/main.slint".to_string(),
        is_builtin: false,
        components: vec![],
        exports: vec![ExportsList {
            specifiers: vec![],
            component: Some(ComponentDecl {
                name: "Main".to_string(),
                name_span: nth_span(EXPORT_MAIN, "Main", 0),
                root: anon(vec![
                    SubNode::Sub(leaf(EXPORT_MAIN, "Foo", 2)),
                    SubNode::Sub(leaf(EXPORT_MAIN, "UserComponent", 1)),
                    SubNode::Sub(leaf(EXPORT_MAIN, "User2Component", 1)),
                ]),
            }),
            struct_names: vec![],
            enum_names: vec![],
        }],
        imports: vec![
            ImportSpecifier {
                resolved_path: "/test/source.slint".to_string(),
                identifiers: vec![ImportIdentifier {
                    external: "Foo".to_string(),
                    external_span: nth_span(EXPORT_MAIN, "Foo", 0),
                    internal: None,
                }],
            },
            ImportSpecifier {
                resolved_path: "/test/user.slint".to_string(),
                identifiers: vec![ImportIdentifier {
                    external: "UserComponent".to_string(),
                    external_span: nth_span(EXPORT_MAIN, "UserComponent", 0),
                    internal: None,
                }],
            },
            ImportSpecifier {
                resolved_path: "/test/user2.slint".to_string(),
                identifiers: vec![ImportIdentifier {
                    external: "User2Component".to_string(),
                    external_span: nth_span(EXPORT_MAIN, "User2Component", 0),
                    internal: None,
                }],
            },
            ImportSpecifier {
                resolved_path: "/test/user3.slint".to_string(),
                identifiers: vec![ImportIdentifier {
                    external: "Foo".to_string(),
                    external_span: nth_span(EXPORT_MAIN, "Foo", 1),
                    internal: Some(ImportAlias {
                        name: "User3Fxx".to_string(),
                        end: nth_span(EXPORT_MAIN, "User3Fxx", 0).end,
                    }),
                }],
            },
            ImportSpecifier {
                resolved_path: "/test/user4.slint".to_string(),
                identifiers: vec![ImportIdentifier {
                    external: "User4Fxx".to_string(),
                    external_span: nth_span(EXPORT_MAIN, "User4Fxx", 0),
                    internal: None,
                }],
            },
        ],
        local_types: strings(&["Main", "Foo", "UserComponent", "User2Component", "User3Fxx", "User4Fxx"]),
        local_elements: vec![],
    };
    let user = SourceDocument {
        path: "/test/user.slint".to_string(),
        is_builtin: false,
        components: vec![],
        exports: vec![
            ExportsList {
                specifiers: vec![],
                component: Some(ComponentDecl {
                    name: "UserComponent".to_string(),
                    name_span: nth_span(EXPORT_USER, "UserComponent", 0),
                    root: anon(vec![SubNode::Sub(leaf(EXPORT_USER, "Bar", 1))]),
                }),
                struct_names: vec![],
                enum_names: vec![],
            },
            ExportsList {
                specifiers: vec![ExportSpecifier {
                    internal: "Bar".to_string(),
                    internal_span: nth_span(EXPORT_USER, "Bar", 2),
                    external: None,
                }],
                component: None,
                struct_names: vec![],
                enum_names: vec![],
            },
        ],
        imports: vec![ImportSpecifier {
            resolved_path: "/test/source.slint".to_string(),
            identifiers: vec![ImportIdentifier {
                external: "Foo".to_string(),
                external_span: nth_span(EXPORT_USER, "Foo", 0),
                internal: Some(ImportAlias {
                    name: "Bar".to_string(),
                    end: nth_span(EXPORT_USER, "Bar", 0).end,
                }),
            }],
        }],
        local_types: strings(&["UserComponent", "Bar"]),
        local_elements: vec![],
    };
    let user2 = SourceDocument {
        path: "/test/user2.slint".to_string(),
        is_builtin: false,
        components: vec![],
        exports: vec![ExportsList {
            specifiers: vec![],
            component: Some(ComponentDecl {
                name: "User2Component".to_string(),
                name_span: nth_span(EXPORT_USER2, "User2Component", 0),
                root: anon(vec![SubNode::Sub(leaf(EXPORT_USER2, "XxxYyyZzz", 1))]),
            }),
            struct_names: vec![],
            enum_names: vec![],
        }],
        imports: vec![ImportSpecifier {
            resolved_path: "/test/source.slint".to_string(),
            identifiers: vec![ImportIdentifier {
                external: "Foo".to_string(),
                external_span: nth_span(EXPORT_USER2, "Foo", 0),
                internal: Some(ImportAlias {
                    name: "XxxYyyZzz".to_string(),
                    end: nth_span(EXPORT_USER2, "XxxYyyZzz", 0).end,
                }),
            }],
        }],
        local_types: strings(&["User2Component", "XxxYyyZzz"]),
        local_elements: vec![],
    };
    let user3 = SourceDocument {
        path: "/test/user3.slint".to_string(),
        is_builtin: false,
        components: vec![],
        exports: vec![ExportsList {
            specifiers: vec![ExportSpecifier {
                internal: "Foo".to_string(),
                internal_span: nth_span(EXPORT_USER3, "Foo", 1),
                external: None,
            }],
            component: None,
            struct_names: vec![],
            enum_names: vec![],
        }],
        imports: vec![ImportSpecifier {
            resolved_path: "/test/source.slint".to_string(),
            identifiers: vec![ImportIdentifier {
                external: "Foo".to_string(),
                external_span: nth_span(EXPORT_USER3, "Foo", 0),
                internal: None,
            }],
        }],
        local_types: strings(&["Foo"]),
        local_elements: vec![],
    };
    let user4 = SourceDocument {
        path: "/test/user4.slint".to_string(),
        is_builtin: false,
        components: vec![],
        exports: vec![ExportsList {
            specifiers: vec![ExportSpecifier {
                internal: "Foo".to_string(),
                internal_span: nth_span(EXPORT_USER4, "Foo", 1),
                external: Some(ExportAlias {
                    name: "User4Fxx".to_string(),
                    end: nth_span(EXPORT_USER4, "User4Fxx", 0).end,
                }),
            }],
            component: None,
            struct_names: vec![],
            enum_names: vec![],
        }],
        imports: vec![ImportSpecifier {
            resolved_path: "/test/source.slint".to_string(),
            identifiers: vec![ImportIdentifier {
                external: "Foo".to_string(),
                external_span: nth_span(EXPORT_USER4, "Foo", 0),
                internal: None,
            }],
        }],
        local_types: strings(&["Foo"]),
        local_elements: vec![],
    };
    let source = SourceDocument {
        path: "/test/source.slint".to_string(),
        is_builtin: false,
        components: vec![],
        exports: vec![ExportsList {
            specifiers: vec![],
            component: Some(ComponentDecl {
                name: "Foo".to_string(),
                name_span: nth_span(EXPORT_SOURCE, "Foo", 0),
                root: anon(vec![]),
            }),
            struct_names: vec![],
            enum_names: vec![],
        }],
        imports: vec![],
        local_types: strings(&["Foo"]),
        local_elements: vec![],
    };
    Workspace { documents: vec![main, user, user2, user3, user4, source] }
}

#[test]
fn test_rename_component_from_definition_with_export_ok() {
    let w = export_ok_workspace();
    let edit = rename_component_from_definition(
        &w,
        5,
        nth_span(EXPORT_SOURCE, "Foo", 0),
        &"Foo".to_string(),
        "XxxYyyZzz".to_string(),
    )
    .unwrap();

    let mut sources = vec![
        EXPORT_MAIN.to_string(),
        EXPORT_USER.to_string(),
        EXPORT_USER2.to_string(),
        EXPORT_USER3.to_string(),
        EXPORT_USER4.to_string(),
        EXPORT_SOURCE.to_string(),
    ];
    let changed = apply_edits(&mut sources, &edit);
    for d in changed {
        if d == 0 {
            assert!(sources[0].contains("XxxYyyZzz"));
            assert!(!sources[0].contains("Foo"));
            assert!(sources[0].contains("UserComponent"));
            assert!(sources[0].contains("import { XxxYyyZzz as User3Fxx }"));
            assert!(sources[0].contains("import { User4Fxx }"));
        } else if d == 1 {
            assert!(sources[1].contains("{ XxxYyyZzz as Bar }"));
            assert!(sources[1].contains("Bar { }"));
            assert!(!sources[1].contains("Foo"));
        } else if d == 2 {
            assert!(sources[2].contains("import { XxxYyyZzz }"));
            assert!(sources[2].contains("XxxYyyZzz { }"));
        } else if d == 3 {
            assert!(sources[3].contains("import { XxxYyyZzz }"));
            assert!(sources[3].contains("export { XxxYyyZzz }"));
        } else if d == 4 {
            assert!(sources[4].contains("import { XxxYyyZzz }"));
            assert!(sources[4].contains("export { XxxYyyZzz as User4Fxx }"));
        } else if d == 5 {
            assert!(sources[5].contains("export component XxxYyyZzz {"));
            assert!(!sources[5].contains("Foo"));
        } else {
            unreachable!();
        }
    }
}

const CONFUSION_MAIN: &str = r#"
import { Foo as User1Fxx } from "user1.slint";
import { Foo as User2Fxx } from "user2.slint";

export component Main {
    User1Fxx { }
    User2Fxx { }
}
"#;

const CONFUSION_USER1: &str = r#"
export component Foo { }
"#;

const CONFUSION_USER2: &str = r#"
export component Foo { }
"#;

fn confusion_workspace() -> Workspace {
    let main = SourceDocument {
        path: "/test/main.slint".to_string(),
        is_builtin: false,
        components: vec![],
        exports: vec![ExportsList {
            specifiers: vec![],
            component: Some(ComponentDecl {
                name: "Main".to_string(),
                name_span: nth_span(CONFUSION_MAIN, "Main", 0),
                root: anon(vec![
                    SubNode::Sub(leaf(CONFUSION_MAIN, "User1Fxx", 1)),
                    SubNode::Sub(leaf(CONFUSION_MAIN, "User2Fxx", 1)),
                ]),
            }),
            struct_names: vec![],
            enum_names: vec![],
        }],
        imports: vec![
            ImportSpecifier {
                resolved_path: "/test/user1.slint".to_string(),
                identifiers: vec![ImportIdentifier {
                    external: "Foo".to_string(),
                    external_span: nth_span(CONFUSION_MAIN, "Foo", 0),
                    internal: Some(ImportAlias {
                        name: "User1Fxx".to_string(),
                        end: nth_span(CONFUSION_MAIN, "User1Fxx", 0).end,
                    }),
                }],
            },
            ImportSpecifier {
                resolved_path: "/test/user2.slint".to_string(),
                identifiers: vec![ImportIdentifier {
                    external: "Foo".to_string(),
                    external_span: nth_span(CONFUSION_MAIN, "Foo", 1),
                    internal: Some(ImportAlias {
                        name: "User2Fxx".to_string(),
                        end: nth_span(CONFUSION_MAIN, "User2Fxx", 0).end,
                    }),
                }],
            },
        ],
        local_types: strings(&["Main", "User1Fxx", "User2Fxx"]),
        local_elements: vec![],
    };
    let user1 = SourceDocument {
        path: "/test/user1.slint".to_string(),
        is_builtin: false,
        components: vec![],
        exports: vec![ExportsList {
            specifiers: vec![],
            component: Some(ComponentDecl {
                name: "Foo".to_string(),
                name_span: nth_span(CONFUSION_USER1, "Foo", 0),
                root: anon(vec![]),
            }),
            struct_names: vec![],
            enum_names: vec![],
        }],
        imports: vec![],
        local_types: strings(&["Foo"]),
        local_elements: vec![],
    };
    let user2 = SourceDocument {
        path: "/test/user2.slint".to_string(),
        is_builtin: false,
        components: vec![],
        exports: vec![ExportsList {
            specifiers: vec![],
            component: Some(ComponentDecl {
                name: "Foo".to_string(),
                name_span: nth_span(CONFUSION_USER2, "Foo", 0),
                root: anon(vec![]),
            }),
            struct_names: vec![],
            enum_names: vec![],
        }],
        imports: vec![],
        local_types: strings(&["Foo"]),
        local_elements: vec![],
    };
    Workspace { documents: vec![main, user1, user2] }
}

#[test]
fn test_rename_component_from_definition_import_confusion_ok() {
    let w = confusion_workspace();

    let edit = rename_component_from_definition(
        &w,
        1,
        nth_span(CONFUSION_USER1, "Foo", 0),
        &"Foo".to_string(),
        "XxxYyyZzz".to_string(),
    )
    .unwrap();
    let mut sources = vec![
        CONFUSION_MAIN.to_string(),
        CONFUSION_USER1.to_string(),
        CONFUSION_USER2.to_string(),
    ];
    let changed = apply_edits(&mut sources, &edit);
    for d in changed {
        if d == 0 {
            assert!(sources[0].contains("import { XxxYyyZzz as User1Fxx }"));
            assert!(sources[0].contains("import { Foo as User2Fxx }"));
        } else if d == 1 {
            assert!(sources[1].contains("export component XxxYyyZzz {"));
            assert!(!sources[1].contains("Foo"));
        } else {
            unreachable!();
        }
    }

    let edit = rename_component_from_definition(
        &w,
        2,
        nth_span(CONFUSION_USER2, "Foo", 0),
        &"Foo".to_string(),
        "XxxYyyZzz".to_string(),
    )
    .unwrap();
    let mut sources = vec![
        CONFUSION_MAIN.to_string(),
        CONFUSION_USER1.to_string(),
        CONFUSION_USER2.to_string(),
    ];
    let changed = apply_edits(&mut sources, &edit);
    for d in changed {
        if d == 0 {
            assert!(sources[0].contains("import { XxxYyyZzz as User2Fxx }"));
            assert!(sources[0].contains("import { Foo as User1Fxx }"));
        } else if d == 2 {
            assert!(sources[2].contains("export component XxxYyyZzz {"));
            assert!(!sources[2].contains("Foo"));
        } else {
            unreachable!();
        }
    }
}

const REDEFINITION_MAIN: &str = r#"
struct UsedStruct { value: int, }
enum UsedEnum { x, y }

component Foo { }

component Baz {
    Foo { }
}

export component Bar {
    Foo { }
    Rectangle {
        Foo { }
        Baz { }
    }
}
"#;

#[test]
fn test_rename_component_from_definition_redefinition_error() {
    let s = REDEFINITION_MAIN;
    let doc = SourceDocument {
        path: "/test/main.slint".to_string(),
        is_builtin: false,
        components: vec![
            ComponentDecl {
                name: "Foo".to_string(),
                name_span: nth_span(s, "Foo", 0),
                root: anon(vec![]),
            },
            ComponentDecl {
                name: "Baz".to_string(),
                name_span: nth_span(s, "Baz", 0),
                root: anon(vec![SubNode::Sub(leaf(s, "Foo", 1))]),
            },
        ],
        exports: vec![ExportsList {
            specifiers: vec![],
            component: Some(ComponentDecl {
                name: "Bar".to_string(),
                name_span: nth_span(s, "Bar", 0),
                root: anon(vec![
                    SubNode::Sub(leaf(s, "Foo", 2)),
                    SubNode::Sub(node(
                        s,
                        "Rectangle",
                        0,
                        vec![
                            SubNode::Sub(leaf(s, "Foo", 3)),
                            SubNode::Sub(leaf(s, "Baz", 1)),
                        ],
                    )),
                ]),
            }),
            struct_names: vec![],
            enum_names: vec![],
        }],
        imports: vec![],
        local_types: strings(&[
            "UsedStruct",
            "UsedEnum",
            "Foo",
            "Baz",
            "Bar",
            "Rectangle",
            "HorizontalLayout",
        ]),
        local_elements: vec![],
    };
    let w = Workspace { documents: vec![doc] };
    let decl_span = nth_span(s, "Foo", 0);
    let old = "Foo".to_string();

    assert!(rename_component_from_definition(&w, 0, decl_span, &old, "Foo".to_string()).is_err());
    assert!(
        rename_component_from_definition(&w, 0, decl_span, &old, "UsedStruct".to_string())
            .is_err()
    );
    assert!(
        rename_component_from_definition(&w, 0, decl_span, &old, "UsedEnum".to_string()).is_err()
    );
    assert!(rename_component_from_definition(&w, 0, decl_span, &old, "Baz".to_string()).is_err());
    assert!(
        rename_component_from_definition(&w, 0, decl_span, &old, "HorizontalLayout".to_string())
            .is_err()
    );
}

const EXPORTED_TYPE_NAMES: &str = r#"
export component Foo {}
export component Baz {}

component Bar {}
component Bat {}

export { Bat, Bar as RenamedBar, Baz as RenamedBaz, StructBar as RenamedStructBar }

export struct StructBar { foo: int }

export enum EnumBar { bar }
"#;

#[test]
fn test_exported_type_names() {
    let s = EXPORTED_TYPE_NAMES;
    let doc = SourceDocument {
        path: "/test/main.slint".to_string(),
        is_builtin: false,
        components: vec![
            ComponentDecl {
                name: "Bar".to_string(),
                name_span: nth_span(s, "Bar", 0),
                root: anon(vec![]),
            },
            ComponentDecl {
                name: "Bat".to_string(),
                name_span: nth_span(s, "Bat", 0),
                root: anon(vec![]),
            },
        ],
        exports: vec![
            ExportsList {
                specifiers: vec![],
                component: Some(ComponentDecl {
                    name: "Foo".to_string(),
                    name_span: nth_span(s, "Foo", 0),
                    root: anon(vec![]),
                }),
                struct_names: vec![],
                enum_names: vec![],
            },
            ExportsList {
                specifiers: vec![],
                component: Some(ComponentDecl {
                    name: "Baz".to_string(),
                    name_span: nth_span(s, "Baz", 0),
                    root: anon(vec![]),
                }),
                struct_names: vec![],
                enum_names: vec![],
            },
            ExportsList {
                specifiers: vec![
                    ExportSpecifier {
                        internal: "Bat".to_string(),
                        internal_span: nth_span(s, "Bat", 1),
                        external: None,
                    },
                    ExportSpecifier {
                        internal: "Bar".to_string(),
                        internal_span: nth_span(s, "Bar", 1),
                        external: Some(ExportAlias {
                            name: "RenamedBar".to_string(),
                            end: nth_span(s, "RenamedBar", 0).end,
                        }),
                    },
                    ExportSpecifier {
                        internal: "Baz".to_string(),
                        internal_span: nth_span(s, "Baz", 1),
                        external: Some(ExportAlias {
                            name: "RenamedBaz".to_string(),
                            end: nth_span(s, "RenamedBaz", 0).end,
                        }),
                    },
                    ExportSpecifier {
                        internal: "StructBar".to_string(),
                        internal_span: nth_span(s, "StructBar", 0),
                        external: Some(ExportAlias {
                            name: "RenamedStructBar".to_string(),
                            end: nth_span(s, "RenamedStructBar", 0).end,
                        }),
                    },
                ],
                component: None,
                struct_names: vec![],
                enum_names: vec![],
            },
            ExportsList {
                specifiers: vec![],
                component: None,
                struct_names: strings(&["StructBar"]),
                enum_names: vec![],
            },
            ExportsList {
                specifiers: vec![],
                component: None,
                struct_names: vec![],
                enum_names: strings(&["EnumBar"]),
            },
        ],
        imports: vec![],
        local_types: strings(&["Foo", "Baz", "Bar", "Bat", "StructBar", "EnumBar"]),
        local_elements: vec![],
    };

    assert!(symbol_export_names(&doc, &"Foobar".to_string()).is_empty());
    assert_eq!(symbol_export_names(&doc, &"Foo".to_string()), vec!["Foo".to_string()]);
    assert_eq!(
        symbol_export_names(&doc, &"Baz".to_string()),
        vec!["Baz".to_string(), "RenamedBaz".to_string()]
    );
    assert_eq!(symbol_export_names(&doc, &"Bar".to_string()), vec!["RenamedBar".to_string()]);
    assert_eq!(symbol_export_names(&doc, &"Bat".to_string()), vec!["Bat".to_string()]);
    assert_eq!(
        symbol_export_names(&doc, &"StructBar".to_string()),
        vec!["RenamedStructBar".to_string(), "StructBar".to_string()]
    );
    assert_eq!(symbol_export_names(&doc, &"EnumBar".to_string()), vec!["EnumBar".to_string()]);
}

#[test]
fn test_noop_rename_yields_empty_edit_set() {
    // The no-op succeeds only when the current name is not itself in the
    // local registry; a registered name is caught by the collision check
    // first (see the redefinition test).
    let mut doc = empty_doc("/test/main.slint");
    doc.components.push(ComponentDecl {
        name: "Foo".to_string(),
        name_span: Span { start: 10, end: 13 },
        root: anon(vec![]),
    });
    let w = Workspace { documents: vec![doc] };
    let r = rename_component_from_definition(
        &w,
        0,
        Span { start: 10, end: 13 },
        &"Foo".to_string(),
        "Foo".to_string(),
    );
    assert_eq!(r.unwrap().len(), 0);
}

#[test]
fn test_collision_errors_report_the_kind() {
    let mut doc = empty_doc("/test/main.slint");
    doc.local_types = strings(&["Taken"]);
    doc.local_elements = strings(&["held"]);
    let w = Workspace { documents: vec![doc] };
    let r = rename_component_from_definition(
        &w,
        0,
        Span { start: 0, end: 3 },
        &"Foo".to_string(),
        "Taken".to_string(),
    );
    match r {
        Err(e) => {
            assert!(matches!(e, RenameError::TypeAlreadyRegistered));
            assert_eq!(e.message(), "the name is already a registered type");
        }
        Ok(_) => panic!("collision must be rejected"),
    }
    let r = rename_component_from_definition(
        &w,
        0,
        Span { start: 0, end: 3 },
        &"Foo".to_string(),
        "held".to_string(),
    );
    match r {
        Err(e) => {
            assert!(matches!(e, RenameError::ElementAlreadyRegistered));
            assert_eq!(e.message(), "the name is already a registered element");
        }
        Ok(_) => panic!("collision must be rejected"),
    }
}

#[test]
fn test_export_alias_redundancy_removal() {
    let src = "component Foo { }\n\nexport { Foo as XxxYyyZzz }\n";
    let doc = SourceDocument {
        path: "/test/main.slint".to_string(),
        is_builtin: false,
        components: vec![ComponentDecl {
            name: "Foo".to_string(),
            name_span: nth_span(src, "Foo", 0),
            root: anon(vec![]),
        }],
        exports: vec![ExportsList {
            specifiers: vec![ExportSpecifier {
                internal: "Foo".to_string(),
                internal_span: nth_span(src, "Foo", 1),
                external: Some(ExportAlias {
                    name: "XxxYyyZzz".to_string(),
                    end: nth_span(src, "XxxYyyZzz", 0).end,
                }),
            }],
            component: None,
            struct_names: vec![],
            enum_names: vec![],
        }],
        imports: vec![],
        local_types: strings(&["Foo"]),
        local_elements: vec![],
    };
    let w = Workspace { documents: vec![doc] };
    let edit = rename_component_from_definition(
        &w,
        0,
        nth_span(src, "Foo", 0),
        &"Foo".to_string(),
        "XxxYyyZzz".to_string(),
    )
    .unwrap();
    let mut sources = vec![src.to_string()];
    apply_edits(&mut sources, &edit);
    assert!(sources[0].contains("export { XxxYyyZzz }"));
    assert!(!sources[0].contains("as"));
    assert!(!sources[0].contains("Foo"));
}
