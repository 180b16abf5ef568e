use csprojtool::framework::char_is_space;
use csprojtool::post_migration_cleanup::app_config_element_transform;
use csprojtool::post_migration_cleanup::cleanup_app_config;
use csprojtool::post_migration_cleanup::cleanup_csproj;
use csprojtool::post_migration_cleanup::csproj_element_transform;
use csprojtool::post_migration_cleanup::process_tree;
use csprojtool::post_migration_cleanup::Cleanup;
use csprojtool::xml_extensions::all_children_whitespace;
use csprojtool::xml_extensions::ends_with;
use csprojtool::xml_extensions::text_is_blank;
use csprojtool::xml_extensions::Element;
use csprojtool::xml_extensions::XMLNode;

fn element(name: &str, attributes: &[(&str, &str)], children: Vec<XMLNode>) -> Element {
    Element {
        id: Some(7),
        name: name.to_string(),
        attributes: attributes
            .iter()
            .map(|(n, v)| (n.to_string(), v.to_string()))
            .collect(),
        children,
    }
}

fn node(name: &str, attributes: &[(&str, &str)], children: Vec<XMLNode>) -> XMLNode {
    XMLNode::Element(element(name, attributes, children))
}

fn text(value: &str) -> XMLNode {
    XMLNode::Text(value.to_string())
}

fn names(element: &Element) -> Vec<String> {
    element
        .children
        .iter()
        .map(|child| match child {
            XMLNode::Element(e) => e.name.clone(),
            XMLNode::Text(t) => format!("{:?}", t),
            other => format!("{:?}", other),
        })
        .collect()
}

#[test]
fn obsolete_elements_are_dropped() {
    let mut group = element(
        "PropertyGroup",
        &[],
        vec![
            node("OutputType", &[], vec![text("Exe")]),
            node("GenerateAssemblyInfo", &[], vec![text("false")]),
            text("\n  "),
            node("Product", &[], vec![]),
            node("AssemblyTitle", &[], vec![]),
            node("Description", &[], vec![]),
            node("ProductVersion", &[], vec![]),
            node("Copyright", &[], vec![]),
            node("Company", &[], vec![]),
            node("NoWarn", &[], vec![]),
            node("TreatWarningsAsErrors", &[], vec![]),
            node("WarningsAsErrors", &[], vec![]),
            node("WarningLevel", &[], vec![]),
            node("DebugSymbols", &[], vec![]),
            node("DebugType", &[], vec![]),
            node("Optimize", &[], vec![]),
            node("OutputPath", &[], vec![]),
            node("DefineConstants", &[], vec![]),
            node("CodeAnalysisIgnoreBuiltInRuleSets", &[], vec![]),
            node("CodeAnalysisIgnoreBuiltInRules", &[], vec![]),
            node("CodeAnalysisFailOnMissingRules", &[], vec![]),
            node("CodeAnalysisRuleSet", &[], vec![]),
            node("DefineDebug", &[], vec![]),
            node("DefineTrace", &[], vec![]),
            node("DocumentationFile", &[], vec![]),
            node("ErrorReport", &[], vec![]),
            XMLNode::Comment("kept".to_string()),
            node("RootNamespace", &[], vec![text("App")]),
        ],
    );
    csproj_element_transform(&mut group);
    assert_eq!(
        names(&group),
        vec![
            "OutputType".to_string(),
            "\"\\n  \"".to_string(),
            "Comment(\"kept\")".to_string(),
            "RootNamespace".to_string()
        ]
    );
    assert_eq!(group.id, Some(7));
    assert_eq!(group.name, "PropertyGroup");
}

#[test]
fn elements_stay_where_they_say_something() {
    let mut group = element(
        "PropertyGroup",
        &[],
        vec![
            node("StartupObject", &[], vec![]),
            node("StartupObject", &[], vec![text("App.Main")]),
            node("PostBuildEvent", &[], vec![]),
            node("PostBuildEvent", &[], vec![XMLNode::Comment("x".to_string())]),
            node("PlatformTarget", &[], vec![]),
            node("PlatformTarget", &[], vec![text("AnyCPU")]),
            node("PlatformTarget", &[], vec![text("any"), XMLNode::CData("Cpu".to_string())]),
            node("PlatformTarget", &[], vec![text("x64")]),
            node("PlatformTarget", &[], vec![XMLNode::Comment("x86".to_string())]),
        ],
    );
    csproj_element_transform(&mut group);
    assert_eq!(
        group.children,
        vec![
            node("StartupObject", &[], vec![text("App.Main")]),
            node("PostBuildEvent", &[], vec![XMLNode::Comment("x".to_string())]),
            node("PlatformTarget", &[], vec![text("x64")]),
        ]
    );
}

#[test]
fn shared_items_and_built_in_imports_are_dropped() {
    let mut project = element(
        "Project",
        &[],
        vec![
            node("Compile", &[("Include", r"..\SolutionInfo.cs")], vec![]),
            node("Compile", &[("Include", r"Program.cs")], vec![]),
            node("Compile", &[("Remove", r"..\SolutionInfo.cs")], vec![]),
            node("Import", &[("Project", r"$(MSBuildToolsPath)\Microsoft.CSharp.Targets")], vec![]),
            node("Import", &[("Project", r"$(MSBuildToolsPath)\Microsoft.CSharp.targets")], vec![]),
            node("Import", &[], vec![]),
        ],
    );
    csproj_element_transform(&mut project);
    assert_eq!(
        project.children,
        vec![
            node("Compile", &[("Include", r"Program.cs")], vec![]),
            node("Compile", &[("Remove", r"..\SolutionInfo.cs")], vec![]),
            node("Import", &[("Project", r"$(MSBuildToolsPath)\Microsoft.CSharp.targets")], vec![]),
            node("Import", &[], vec![]),
        ]
    );
}

#[test]
fn property_groups_with_the_same_attributes_become_one() {
    let mut project = element(
        "Project",
        &[],
        vec![
            node("PropertyGroup", &[], vec![node("A", &[], vec![])]),
            node("PropertyGroup", &[("Condition", "x")], vec![node("B", &[], vec![])]),
            node("ItemGroup", &[], vec![node("Compile", &[], vec![])]),
            node("PropertyGroup", &[], vec![node("C", &[], vec![]), text(" ")]),
            node("PropertyGroup", &[("Condition", "x")], vec![]),
            node("PropertyGroup", &[("Condition", "y")], vec![text("\n")]),
            node("ItemGroup", &[], vec![text("  "), text("")]),
            node("ItemGroup", &[], vec![node("Compile", &[], vec![])]),
            node("Other", &[], vec![]),
        ],
    );
    csproj_element_transform(&mut project);
    assert_eq!(
        project.children,
        vec![
            node(
                "PropertyGroup",
                &[],
                vec![node("A", &[], vec![]), node("C", &[], vec![]), text(" ")]
            ),
            node("PropertyGroup", &[("Condition", "x")], vec![node("B", &[], vec![])]),
            node("ItemGroup", &[], vec![node("Compile", &[], vec![])]),
            node("ItemGroup", &[], vec![node("Compile", &[], vec![])]),
            node("Other", &[], vec![]),
        ]
    );
}

#[test]
fn project_tree_is_cleaned_from_the_leaves_up() {
    let project = element(
        "Project",
        &[("Sdk", "Microsoft.NET.Sdk")],
        vec![
            text("\n  "),
            node(
                "PropertyGroup",
                &[],
                vec![text("\n    "), node("Optimize", &[], vec![text("true")]), text("\n  ")],
            ),
            text("\n  "),
            node(
                "ItemGroup",
                &[],
                vec![node("Compile", &[("Include", "SolutionInfo.cs")], vec![])],
            ),
            node("Target", &[], vec![node("Message", &[], vec![])]),
        ],
    );
    let cleaned = cleanup_csproj(project).unwrap();
    assert_eq!(
        cleaned,
        element(
            "Project",
            &[("Sdk", "Microsoft.NET.Sdk")],
            vec![
                text("\n  "),
                text("\n  "),
                node("Target", &[], vec![node("Message", &[], vec![])]),
            ],
        )
    );
}

#[test]
fn application_configuration_loses_what_the_build_makes() {
    let mut runtime = element(
        "runtime",
        &[],
        vec![
            text("\n"),
            node("assemblyBinding", &[], vec![node("dependentAssembly", &[], vec![])]),
            node("gcServer", &[("enabled", "true")], vec![]),
            node("supportedRuntime", &[], vec![]),
            node("startup", &[], vec![]),
            node("runtime", &[], vec![text(" ")]),
            node("startup", &[], vec![node("x", &[], vec![])]),
        ],
    );
    app_config_element_transform(&mut runtime);
    assert_eq!(
        runtime.children,
        vec![
            text("\n"),
            node("gcServer", &[("enabled", "true")], vec![]),
            node("startup", &[], vec![node("x", &[], vec![])]),
        ]
    );
}

#[test]
fn empty_application_configuration_has_no_use() {
    let configuration = || {
        element(
            "configuration",
            &[],
            vec![
                text("\n  "),
                node(
                    "startup",
                    &[],
                    vec![node("supportedRuntime", &[("version", "v4.0")], vec![])],
                ),
                text("\n  "),
                node(
                    "runtime",
                    &[],
                    vec![text("\n    "), node("assemblyBinding", &[], vec![]), text("\n  ")],
                ),
                text("\n"),
            ],
        )
    };
    assert_eq!(cleanup_app_config(configuration()), None);
    assert_eq!(
        process_tree(configuration(), Cleanup::AppConfig),
        element("configuration", &[], vec![text("\n  "), text("\n  "), text("\n")])
    );
    let mut with_settings = configuration();
    with_settings
        .children
        .push(node("appSettings", &[], vec![]));
    assert_eq!(
        cleanup_app_config(with_settings),
        Some(element(
            "configuration",
            &[],
            vec![text("\n  "), text("\n  "), text("\n"), node("appSettings", &[], vec![])]
        ))
    );
    let mut with_comment = configuration();
    with_comment
        .children
        .push(XMLNode::Comment("note".to_string()));
    assert!(cleanup_app_config(with_comment).is_some());
}

#[test]
fn project_rules_do_not_touch_application_configurations() {
    let configuration = element(
        "configuration",
        &[],
        vec![node("Optimize", &[], vec![]), node("PropertyGroup", &[], vec![])],
    );
    assert_eq!(
        process_tree(configuration, Cleanup::AppConfig).children.len(),
        2
    );
    let project = element(
        "Project",
        &[],
        vec![node("runtime", &[], vec![]), node("assemblyBinding", &[], vec![])],
    );
    assert_eq!(process_tree(project, Cleanup::Csproj).children.len(), 2);
}

#[test]
fn white_space_children_are_told() {
    assert!(all_children_whitespace(&element("a", &[], vec![])));
    assert!(all_children_whitespace(&element(
        "a",
        &[],
        vec![text(" \n\t"), text(""), text("\u{a0}")]
    )));
    assert!(!all_children_whitespace(&element("a", &[], vec![text(" x ")])));
    assert!(!all_children_whitespace(&element(
        "a",
        &[],
        vec![XMLNode::CData(" ".to_string())]
    )));
    assert!(!all_children_whitespace(&element(
        "a",
        &[],
        vec![XMLNode::Comment(" ".to_string())]
    )));
    assert!(text_is_blank(""));
    assert!(!text_is_blank("\u{200b}"));
}

#[test]
fn white_space_is_what_the_platform_calls_white_space() {
    for code in 0..=0x10FFFFu32 {
        if let Some(c) = char::from_u32(code) {
            assert_eq!(char_is_space(c), c.is_whitespace(), "{:?}", c);
        }
    }
}

#[test]
fn texts_end_with_their_endings() {
    assert!(ends_with("SolutionInfo.cs", "SolutionInfo.cs"));
    assert!(ends_with(r"..\SolutionInfo.cs", "SolutionInfo.cs"));
    assert!(ends_with("abc", ""));
    assert!(ends_with("", ""));
    assert!(!ends_with("Info.cs", "SolutionInfo.cs"));
    assert!(!ends_with("SolutionInfo.cs ", "SolutionInfo.cs"));
    assert!(!ends_with("solutioninfo.cs", "SolutionInfo.cs"));
    assert!(ends_with("日本語", "本語"));
}

#[test]
fn element_text_and_attributes_are_read() {
    let e = element(
        "a",
        &[("x", "1"), ("y", "2"), ("x", "3")],
        vec![
            text("one"),
            XMLNode::Comment("no".to_string()),
            XMLNode::CData("two".to_string()),
            node("b", &[], vec![text("no")]),
            text("three"),
        ],
    );
    assert_eq!(e.get_text(), Some("onetwothree".to_string()));
    assert_eq!(e.attribute("x"), Some(&"1".to_string()));
    assert_eq!(e.attribute("y"), Some(&"2".to_string()));
    assert_eq!(e.attribute("z"), None);
    assert_eq!(element("a", &[], vec![node("b", &[], vec![])]).get_text(), None);
    assert_eq!(element("a", &[], vec![text("")]).get_text(), Some(String::new()));
    assert!(e.same_attributes(&element("b", &[("x", "1"), ("y", "2"), ("x", "3")], vec![])));
    assert!(!e.same_attributes(&element("a", &[("x", "1"), ("y", "2")], vec![])));
    assert!(!e.same_attributes(&element("a", &[("x", "1"), ("y", "2"), ("x", "4")], vec![])));
    assert_eq!(Element::new("n").id, None);
    assert_eq!(Element::new("n").name, "n");
}
