//! The property resolver: traversal, configuration selection, imports,
//! diagnostics and the error surface.

use vcxproj::{BoolMap, Diag, EvalError, FileSet, StringMap, Vcxproj, XmlElement, XmlNode};

fn elem(name: &str, attrs: &[(&str, &str)], children: Vec<XmlNode>) -> XmlElement {
    XmlElement {
        name: String::from(name),
        attrs: attrs.iter().map(|(k, v)| (String::from(*k), String::from(*v))).collect(),
        children,
    }
}

fn prop(name: &str, text: &str) -> XmlNode {
    XmlNode::Element(elem(name, &[], vec![XmlNode::Text(String::from(text))]))
}

fn run(files: &FileSet, fs: &BoolMap, env: &StringMap, path: &str) -> Result<Vcxproj, EvalError> {
    let mut v = Vcxproj::new();
    let name = String::from(path);
    v.read_vcxproj(&name, files, fs, env, 16, 16).map(|_| v)
}

fn get<'a>(v: &'a Vcxproj, key: &str) -> Option<&'a String> {
    v.values.get(key)
}

#[test]
fn simple_properties() {
    let tree = vec![XmlNode::Element(elem(
        "Project",
        &[],
        vec![prop("Alpha", "one"), prop("Beta", "two")],
    ))];
    let mut files = FileSet::new();
    files.insert(String::from("p/a.vcxproj"), tree);
    let v = run(&files, &BoolMap::new(), &StringMap::new(), "p/a.vcxproj").unwrap();
    assert_eq!(get(&v, "Alpha").unwrap(), "one");
    assert_eq!(get(&v, "Beta").unwrap(), "two");
    assert!(v.diags.is_empty());
}

#[test]
fn synthetic_properties() {
    let tree = vec![XmlNode::Element(elem("Project", &[], vec![]))];
    let mut files = FileSet::new();
    files.insert(String::from("dir/sub/file.vcxproj"), tree);
    let v = run(&files, &BoolMap::new(), &StringMap::new(), "dir/sub/file.vcxproj").unwrap();
    assert_eq!(get(&v, "MSBuildThisFile").unwrap(), "file.vcxproj");
    assert_eq!(get(&v, "MSBuildThisFileDirectory").unwrap(), "dir/sub/");
    assert_eq!(get(&v, "MSBuildThisFileExtension").unwrap(), "vcxproj");
    assert_eq!(get(&v, "MSBuildThisFileFullPath").unwrap(), "dir/sub/file.vcxproj");
    assert_eq!(get(&v, "MSBuildThisFileName").unwrap(), "file");
}

#[test]
fn property_overwrite_diagnostic() {
    let tree = vec![XmlNode::Element(elem(
        "Project",
        &[],
        vec![prop("Key", "A"), prop("Key", "B")],
    ))];
    let mut files = FileSet::new();
    files.insert(String::from("p/a.vcxproj"), tree);
    let v = run(&files, &BoolMap::new(), &StringMap::new(), "p/a.vcxproj").unwrap();
    assert_eq!(get(&v, "Key").unwrap(), "B");
    assert_eq!(
        v.diags,
        vec![Diag::Overwrite {
            key: String::from("Key"),
            previous: String::from("A"),
            text: String::from("B"),
        }],
    );
}

#[test]
fn configuration_selection() {
    let group = elem(
        "ItemGroup",
        &[("Label", "ProjectConfigurations")],
        vec![
            XmlNode::Element(elem(
                "ProjectConfiguration",
                &[("Include", "Debug|x64")],
                vec![prop("First", "1")],
            )),
            XmlNode::Element(elem(
                "ProjectConfiguration",
                &[("Include", "Release|x64")],
                vec![prop("Second", "2")],
            )),
        ],
    );
    let tree = vec![XmlNode::Element(elem("Project", &[], vec![XmlNode::Element(group)]))];
    let mut files = FileSet::new();
    files.insert(String::from("p/a.vcxproj"), tree);
    let v = run(&files, &BoolMap::new(), &StringMap::new(), "p/a.vcxproj").unwrap();
    assert_eq!(v.config(), "Debug|x64");
    assert_eq!(get(&v, "First").unwrap(), "1");
    assert!(get(&v, "Second").is_none());
}

#[test]
fn condition_prunes_subtree() {
    let gated = elem(
        "PropertyGroup",
        &[("Condition", "'a' == 'b'")],
        vec![prop("Hidden", "x")],
    );
    let open_group = elem(
        "PropertyGroup",
        &[("Condition", "'a' == 'a'")],
        vec![prop("Shown", "y")],
    );
    let tree = vec![XmlNode::Element(elem(
        "Project",
        &[],
        vec![XmlNode::Element(gated), XmlNode::Element(open_group)],
    ))];
    let mut files = FileSet::new();
    files.insert(String::from("p/a.vcxproj"), tree);
    let v = run(&files, &BoolMap::new(), &StringMap::new(), "p/a.vcxproj").unwrap();
    assert!(get(&v, "Hidden").is_none());
    assert_eq!(get(&v, "Shown").unwrap(), "y");
}

#[test]
fn condition_uses_resolved_macros() {
    let gated = elem(
        "PropertyGroup",
        &[("Condition", "'$(Configuration)' == 'Debug'")],
        vec![prop("DebugOnly", "yes")],
    );
    let tree = vec![XmlNode::Element(elem(
        "Project",
        &[],
        vec![prop("Configuration", "Debug"), XmlNode::Element(gated)],
    ))];
    let mut files = FileSet::new();
    files.insert(String::from("p/a.vcxproj"), tree);
    let v = run(&files, &BoolMap::new(), &StringMap::new(), "p/a.vcxproj").unwrap();
    assert_eq!(get(&v, "DebugOnly").unwrap(), "yes");
}

#[test]
fn import_shares_the_table() {
    // The importing file sets Bar before the import line; the imported
    // file reads it.  Both write into one shared table.
    let main_tree = vec![XmlNode::Element(elem(
        "Project",
        &[],
        vec![
            prop("Bar", "baz"),
            XmlNode::Element(elem("Import", &[("Project", "other.props")], vec![])),
        ],
    ))];
    let other_tree = vec![XmlNode::Element(elem("Project", &[], vec![prop("Foo", "$(Bar)")]))];
    let mut files = FileSet::new();
    files.insert(String::from("p/main.vcxproj"), main_tree);
    files.insert(String::from("other.props"), other_tree);
    let v = run(&files, &BoolMap::new(), &StringMap::new(), "p/main.vcxproj").unwrap();
    assert_eq!(get(&v, "Foo").unwrap(), "baz");
    // The synthetic properties now describe the imported file.
    assert_eq!(get(&v, "MSBuildThisFile").unwrap(), "other.props");
}

#[test]
fn import_path_resolves_macros() {
    let main_tree = vec![XmlNode::Element(elem(
        "Project",
        &[],
        vec![
            prop("Dir", "sub"),
            XmlNode::Element(elem("Import", &[("Project", "$(Dir)/other.props")], vec![])),
        ],
    ))];
    let other_tree = vec![XmlNode::Element(elem("Project", &[], vec![prop("Found", "yes")]))];
    let mut files = FileSet::new();
    files.insert(String::from("main.vcxproj"), main_tree);
    files.insert(String::from("sub/other.props"), other_tree);
    let v = run(&files, &BoolMap::new(), &StringMap::new(), "main.vcxproj").unwrap();
    assert_eq!(get(&v, "Found").unwrap(), "yes");
}

#[test]
fn unresolved_macro_becomes_empty_with_diagnostic() {
    let tree = vec![XmlNode::Element(elem(
        "Project",
        &[],
        vec![prop("Combined", "pre$(Nothing)post")],
    ))];
    let mut files = FileSet::new();
    files.insert(String::from("a.vcxproj"), tree);
    let v = run(&files, &BoolMap::new(), &StringMap::new(), "a.vcxproj").unwrap();
    assert_eq!(get(&v, "Combined").unwrap(), "prepost");
    assert_eq!(v.diags, vec![Diag::Unresolved { name: String::from("Nothing") }]);
}

#[test]
fn environment_fallback() {
    let tree = vec![XmlNode::Element(elem("Project", &[], vec![prop("Home", "$(USERDIR)!")]))];
    let mut files = FileSet::new();
    files.insert(String::from("a.vcxproj"), tree);
    let mut env = StringMap::new();
    env.insert(String::from("USERDIR"), String::from("/home/u"));
    let v = run(&files, &BoolMap::new(), &env, "a.vcxproj").unwrap();
    assert_eq!(get(&v, "Home").unwrap(), "/home/u!");
    assert!(v.diags.is_empty());
}

#[test]
fn need_file_error() {
    let files = FileSet::new();
    let err = run(&files, &BoolMap::new(), &StringMap::new(), "missing.vcxproj").err().unwrap();
    assert_eq!(err, EvalError::NeedFile(String::from("missing.vcxproj")));
}

#[test]
fn need_exists_error() {
    let gated = elem("PropertyGroup", &[("Condition", "exists('some/file')")], vec![]);
    let tree = vec![XmlNode::Element(elem("Project", &[], vec![XmlNode::Element(gated)]))];
    let mut files = FileSet::new();
    files.insert(String::from("a.vcxproj"), tree);
    let err = run(&files, &BoolMap::new(), &StringMap::new(), "a.vcxproj").err().unwrap();
    assert_eq!(err, EvalError::NeedExists(String::from("some/file")));
}

#[test]
fn bad_path_error() {
    let mut files = FileSet::new();
    files.insert(String::from("noextension"), vec![]);
    let err = run(&files, &BoolMap::new(), &StringMap::new(), "noextension").err().unwrap();
    assert_eq!(err, EvalError::BadPath(String::from("noextension")));
    let err2 = run(&files, &BoolMap::new(), &StringMap::new(), "dir.x/").err().unwrap();
    assert_eq!(err2, EvalError::BadPath(String::from("dir.x/")));
}

#[test]
fn condition_parse_error_aborts() {
    let gated = elem("PropertyGroup", &[("Condition", "((")], vec![]);
    let tree = vec![XmlNode::Element(elem("Project", &[], vec![XmlNode::Element(gated)]))];
    let mut files = FileSet::new();
    files.insert(String::from("a.vcxproj"), tree);
    let err = run(&files, &BoolMap::new(), &StringMap::new(), "a.vcxproj").err().unwrap();
    assert!(matches!(err, EvalError::Parse(_)));
}

#[test]
fn circular_import_is_caught() {
    // A file importing itself would recurse without bound; the depth bound
    // turns it into an error.
    let tree = vec![XmlNode::Element(elem(
        "Project",
        &[],
        vec![XmlNode::Element(elem("Import", &[("Project", "loop.vcxproj")], vec![]))],
    ))];
    let mut files = FileSet::new();
    files.insert(String::from("loop.vcxproj"), tree);
    let err = run(&files, &BoolMap::new(), &StringMap::new(), "loop.vcxproj").err().unwrap();
    assert_eq!(err, EvalError::ImportDepthExceeded);
}

#[test]
fn self_referential_macro_is_caught() {
    // The stored value of A becomes `$(A)`; reading it back would expand
    // without bound, which the depth bound turns into an error.
    let tree = vec![XmlNode::Element(elem(
        "Project",
        &[],
        vec![prop("A", "$($(Z)A)"), prop("B", "$(A)")],
    ))];
    let mut files = FileSet::new();
    files.insert(String::from("a.vcxproj"), tree);
    let err = run(&files, &BoolMap::new(), &StringMap::new(), "a.vcxproj").err().unwrap();
    assert_eq!(err, EvalError::MacroDepthExceeded);
}

#[test]
fn text_trimmed_and_empty_text_ignored() {
    let tree = vec![XmlNode::Element(elem(
        "Project",
        &[],
        vec![
            prop("Padded", "  value  "),
            prop("Blank", "   "),
        ],
    ))];
    let mut files = FileSet::new();
    files.insert(String::from("a.vcxproj"), tree);
    let v = run(&files, &BoolMap::new(), &StringMap::new(), "a.vcxproj").unwrap();
    assert_eq!(get(&v, "Padded").unwrap(), "value");
    assert!(get(&v, "Blank").is_none());
}

#[test]
fn comments_and_instructions_ignored() {
    let tree = vec![
        XmlNode::Comment,
        XmlNode::ProcessingInstruction,
        XmlNode::Element(elem(
            "Project",
            &[],
            vec![XmlNode::Comment, prop("P", "v"), XmlNode::ProcessingInstruction],
        )),
    ];
    let mut files = FileSet::new();
    files.insert(String::from("a.vcxproj"), tree);
    let v = run(&files, &BoolMap::new(), &StringMap::new(), "a.vcxproj").unwrap();
    assert_eq!(get(&v, "P").unwrap(), "v");
}
