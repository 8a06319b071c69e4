//! The property resolver: walks a project file's XML tree, gates elements
//! on their `Condition` attributes, selects a single build configuration,
//! extracts text content into the shared property table with macro
//! resolution, and follows `Import` elements into other files.
//!
//! The resolver works on plain values only.  The caller supplies the parsed
//! tree of each file (`FileSet`), the filesystem-existence answers
//! (`BoolMap`) and an environment snapshot (`StringMap`).  When a needed
//! file or answer is missing, the resolver stops with `NeedFile` or
//! `NeedExists`; the caller supplies it and starts the run over.

use vstd::prelude::*;

use crate::condition::{
    eval_term, eval_term_exec, exists_paths, collect_exists_paths, spec_parse_condition,
    ConditionParser, ParseError,
};
use crate::paths::{
    directory_of, extension_of, file_name_of, spec_directory, spec_extension, spec_file_name,
    spec_stem, stem_of,
};
use crate::resolve::{
    diags_view, find_from, lemma_diags_view_push, lemma_resolve_idempotent_no_pattern,
    resolve_variables, spec_resolve, Diag, DiagV,
};
use crate::table::{spec_lookup, BoolMap, StringMap};
use crate::text::{spec_trim, str_eq, trim};
use crate::xml::{
    children_element_count, element_count, lemma_children_count_ge, FileSet, XmlElement, XmlNode,
};

verus! {

// ---------------------------------------------------------------------------
// State, errors and their abstractions
// ---------------------------------------------------------------------------
/// The abstract state of one evaluation run.
#[verifier::ext_equal]
pub struct EState {
    /// The property table.
    pub table: Map<Seq<char>, Seq<char>>,
    /// The active configuration; empty until the first
    /// `ProjectConfiguration` item fixes it.
    pub config: Seq<char>,
    /// The diagnostics emitted so far, in order.
    pub diags: Seq<DiagV>,
}

/// Why an evaluation run stopped.
#[derive(Debug, Clone, PartialEq, Eq)]
pub enum EvalError {
    /// A condition string does not match the grammar.
    Parse(ParseError),
    /// No tree was supplied for this file path: supply it and start over.
    NeedFile(String),
    /// No existence answer was supplied for this path: supply it and start
    /// over.
    NeedExists(String),
    /// A file path with no file name or no extension.
    BadPath(String),
    /// Imports nested deeper than the given bound.
    ImportDepthExceeded,
    /// Macro resolution deeper than the given bound: a cyclic reference.
    MacroDepthExceeded,
}

/// The abstraction of an error.
pub enum EvalErrorV {
    Parse,
    NeedFile(Seq<char>),
    NeedExists(Seq<char>),
    BadPath(Seq<char>),
    ImportDepthExceeded,
    MacroDepthExceeded,
}

impl View for EvalError {
    type V = EvalErrorV;

    open spec fn view(&self) -> EvalErrorV {
        match self {
            EvalError::Parse(_) => EvalErrorV::Parse,
            EvalError::NeedFile(p) => EvalErrorV::NeedFile(p@),
            EvalError::NeedExists(p) => EvalErrorV::NeedExists(p@),
            EvalError::BadPath(p) => EvalErrorV::BadPath(p@),
            EvalError::ImportDepthExceeded => EvalErrorV::ImportDepthExceeded,
            EvalError::MacroDepthExceeded => EvalErrorV::MacroDepthExceeded,
        }
    }
}

/// The resolver.  `values` is the shared property table; `config` the
/// active configuration, empty while none is chosen; `diags` the
/// diagnostics in order of emission.
pub struct Vcxproj {
    pub values: StringMap,
    config: String,
    pub diags: Vec<Diag>,
}

impl View for Vcxproj {
    type V = EState;

    closed spec fn view(&self) -> EState {
        EState { table: self.values@, config: self.config@, diags: diags_view(self.diags@) }
    }
}

// ---------------------------------------------------------------------------
// The semantics, one spec function per traversal step
// ---------------------------------------------------------------------------
/// Seeding of the five synthetic `MSBuildThisFile*` properties, done once
/// per file read, before parsing; plain overwrites without diagnostics.  A
/// path with no file name or no extension is rejected.
pub open spec fn spec_seed(st: EState, path: Seq<char>) -> Result<EState, EvalErrorV> {
    let name = spec_file_name(path);
    if name.len() == 0 {
        Err(EvalErrorV::BadPath(path))
    } else {
        match spec_extension(name) {
            None => Err(EvalErrorV::BadPath(path)),
            Some(ext) => Ok(
                EState {
                    table: st.table.insert("MSBuildThisFile"@, name).insert(
                        "MSBuildThisFileDirectory"@,
                        spec_directory(path),
                    ).insert("MSBuildThisFileExtension"@, ext).insert(
                        "MSBuildThisFileFullPath"@,
                        path,
                    ).insert("MSBuildThisFileName"@, spec_stem(name)),
                    config: st.config,
                    diags: st.diags,
                },
            ),
        }
    }
}

/// The first of `paths[i..]` with no answer in `fs`.
pub open spec fn first_missing(paths: Seq<Seq<char>>, fs: Map<Seq<char>, bool>, i: int) -> Option<
    Seq<char>,
>
    decreases paths.len() - i,
{
    if i < 0 || i >= paths.len() {
        None
    } else if !fs.contains_key(paths[i]) {
        Some(paths[i])
    } else {
        first_missing(paths, fs, i + 1)
    }
}

/// A property update from element text: the text is trimmed, an empty
/// result is ignored, macros are resolved, and overwriting an existing
/// entry emits one diagnostic naming the key, the value replaced and the
/// raw (unresolved) text.  `None` when macro resolution exceeds its depth
/// bound.
pub open spec fn spec_update(
    st: EState,
    tag: Seq<char>,
    raw: Seq<char>,
    env: Map<Seq<char>, Seq<char>>,
    mfuel: nat,
) -> Option<EState> {
    let val = spec_trim(raw);
    if val.len() == 0 {
        Some(st)
    } else {
        match spec_resolve(val, st.table, env, mfuel) {
            None => None,
            Some(p) => {
                let d2 = if st.table.contains_key(tag) {
                    seq![DiagV::Overwrite { key: tag, previous: st.table[tag], text: val }]
                } else {
                    Seq::<DiagV>::empty()
                };
                Some(
                    EState {
                        table: st.table.insert(tag, p.0),
                        config: st.config,
                        diags: st.diags + p.1 + d2,
                    },
                )
            },
        }
    }
}

/// The element is an `ItemGroup` labeled `ProjectConfigurations`.
pub open spec fn is_config_group_spec(e: XmlElement) -> bool {
    e.name@ == "ItemGroup"@ && spec_lookup(e.attrs@, "Label"@) == Some("ProjectConfigurations"@)
}

/// The `Project` attribute of an `Import` element, if this is one.
pub open spec fn spec_import_project(e: XmlElement) -> Option<Seq<char>> {
    if e.name@ == "Import"@ {
        spec_lookup(e.attrs@, "Project"@)
    } else {
        None
    }
}

/// One whole file read: seed the synthetic properties, look the supplied
/// tree up, and walk its root children.  Each read consumes one unit of
/// import depth.
pub open spec fn spec_read(
    st: EState,
    path: Seq<char>,
    files: Map<Seq<char>, Seq<XmlNode>>,
    fs: Map<Seq<char>, bool>,
    env: Map<Seq<char>, Seq<char>>,
    fuel: nat,
    mfuel: nat,
) -> Result<EState, EvalErrorV>
    decreases fuel, 0int, Seq::<XmlNode>::empty(), 0int,
{
    match spec_seed(st, path) {
        Err(e) => Err(e),
        Ok(st1) => if !files.contains_key(path) {
            Err(EvalErrorV::NeedFile(path))
        } else if fuel == 0 {
            Err(EvalErrorV::ImportDepthExceeded)
        } else {
            spec_traverse_children(
                st1,
                files[path],
                0,
                Option::<Seq<char>>::None,
                files,
                fs,
                env,
                (fuel - 1) as nat,
                mfuel,
            )
        },
    }
}

/// The walk of the siblings `nodes[i..]`.  An element recurses; text under
/// a named parent updates the table; at the root (no parent) and for
/// comments and processing instructions nothing happens.
pub open spec fn spec_traverse_children(
    st: EState,
    nodes: Seq<XmlNode>,
    i: int,
    parent: Option<Seq<char>>,
    files: Map<Seq<char>, Seq<XmlNode>>,
    fs: Map<Seq<char>, bool>,
    env: Map<Seq<char>, Seq<char>>,
    fuel: nat,
    mfuel: nat,
) -> Result<EState, EvalErrorV>
    decreases fuel, 1int, nodes, nodes.len() - i,
{
    if i < 0 || i >= nodes.len() {
        Ok(st)
    } else {
        match nodes[i] {
            XmlNode::Element(e) => match spec_traverse_element(st, e, files, fs, env, fuel, mfuel) {
                Err(er) => Err(er),
                Ok(st2) => spec_traverse_children(
                    st2,
                    nodes,
                    i + 1,
                    parent,
                    files,
                    fs,
                    env,
                    fuel,
                    mfuel,
                ),
            },
            XmlNode::Text(txt) => match parent {
                Some(tag) => match spec_update(st, tag, txt@, env, mfuel) {
                    None => Err(EvalErrorV::MacroDepthExceeded),
                    Some(st2) => spec_traverse_children(
                        st2,
                        nodes,
                        i + 1,
                        parent,
                        files,
                        fs,
                        env,
                        fuel,
                        mfuel,
                    ),
                },
                None => spec_traverse_children(st, nodes, i + 1, parent, files, fs, env, fuel, mfuel),
            },
            _ => spec_traverse_children(st, nodes, i + 1, parent, files, fs, env, fuel, mfuel),
        }
    }
}

/// One element: its `Condition` attribute - macro-resolved, parsed and
/// evaluated - gates the whole subtree; a false condition skips it with no
/// further effect.  Resolution diagnostics are emitted either way.
pub open spec fn spec_traverse_element(
    st: EState,
    e: XmlElement,
    files: Map<Seq<char>, Seq<XmlNode>>,
    fs: Map<Seq<char>, bool>,
    env: Map<Seq<char>, Seq<char>>,
    fuel: nat,
    mfuel: nat,
) -> Result<EState, EvalErrorV>
    decreases fuel, 1int, e, 1int,
{
    match spec_lookup(e.attrs@, "Condition"@) {
        Some(raw) => match spec_resolve(raw, st.table, env, mfuel) {
            None => Err(EvalErrorV::MacroDepthExceeded),
            Some(p) => {
                let st1 = EState { table: st.table, config: st.config, diags: st.diags + p.1 };
                match spec_parse_condition(p.0) {
                    None => Err(EvalErrorV::Parse),
                    Some(t) => match first_missing(exists_paths(t), fs, 0) {
                        Some(miss) => Err(EvalErrorV::NeedExists(miss)),
                        None => if !eval_term(t, fs) {
                            Ok(st1)
                        } else {
                            spec_element_body(st1, e, files, fs, env, fuel, mfuel)
                        },
                    },
                }
            },
        },
        None => spec_element_body(st, e, files, fs, env, fuel, mfuel),
    }
}

/// The body of an element whose condition held: a configuration selector
/// walks its children under the selection rule; an `Import` resolves its
/// `Project` path and reads that file into the same state; anything else
/// recurses into its children, with text keyed by this element's name.
pub open spec fn spec_element_body(
    st: EState,
    e: XmlElement,
    files: Map<Seq<char>, Seq<XmlNode>>,
    fs: Map<Seq<char>, bool>,
    env: Map<Seq<char>, Seq<char>>,
    fuel: nat,
    mfuel: nat,
) -> Result<EState, EvalErrorV>
    decreases fuel, 1int, e, 0int,
{
    if is_config_group_spec(e) {
        spec_config_children(st, e.children@, 0, files, fs, env, fuel, mfuel)
    } else {
        match spec_import_project(e) {
            Some(proj) => match spec_resolve(proj, st.table, env, mfuel) {
                None => Err(EvalErrorV::MacroDepthExceeded),
                Some(p) => {
                    let st1 = EState {
                        table: st.table,
                        config: st.config,
                        diags: st.diags + p.1,
                    };
                    spec_read(st1, p.0, files, fs, env, fuel, mfuel)
                },
            },
            None => spec_traverse_children(
                st,
                e.children@,
                0,
                Some(e.name@),
                files,
                fs,
                env,
                fuel,
                mfuel,
            ),
        }
    }
}

/// The configuration selection over the children of the selector group:
/// the first child element with an `Include` attribute fixes the active
/// configuration; afterwards only children whose `Include` equals it are
/// processed, and the others are skipped without error.
pub open spec fn spec_config_children(
    st: EState,
    nodes: Seq<XmlNode>,
    i: int,
    files: Map<Seq<char>, Seq<XmlNode>>,
    fs: Map<Seq<char>, bool>,
    env: Map<Seq<char>, Seq<char>>,
    fuel: nat,
    mfuel: nat,
) -> Result<EState, EvalErrorV>
    decreases fuel, 1int, nodes, nodes.len() - i,
{
    if i < 0 || i >= nodes.len() {
        Ok(st)
    } else {
        match nodes[i] {
            XmlNode::Element(ce) => match spec_lookup(ce.attrs@, "Include"@) {
                Some(inc) => if st.config.len() == 0 || st.config == inc {
                    let st1 = EState { table: st.table, config: inc, diags: st.diags };
                    match spec_traverse_element(st1, ce, files, fs, env, fuel, mfuel) {
                        Err(er) => Err(er),
                        Ok(st2) => spec_config_children(
                            st2,
                            nodes,
                            i + 1,
                            files,
                            fs,
                            env,
                            fuel,
                            mfuel,
                        ),
                    }
                } else {
                    spec_config_children(st, nodes, i + 1, files, fs, env, fuel, mfuel)
                },
                None => spec_config_children(st, nodes, i + 1, files, fs, env, fuel, mfuel),
            },
            _ => spec_config_children(st, nodes, i + 1, files, fs, env, fuel, mfuel),
        }
    }
}

// ---------------------------------------------------------------------------
// Laws of the resolver
// ---------------------------------------------------------------------------
/// Last write wins, reported once: updating a property first with text `a`
/// and then with text `b` - both already trimmed, non-empty and free of
/// macro references, under a table that does not yet hold the key - leaves
/// the key at `b` and emits exactly one diagnostic, which names the key,
/// the value `a` it replaced and the new text `b`.
pub proof fn lemma_property_overwrite(
    st: EState,
    tag: Seq<char>,
    a: Seq<char>,
    b: Seq<char>,
    env: Map<Seq<char>, Seq<char>>,
    mfuel: nat,
)
    requires
        !st.table.contains_key(tag),
        spec_trim(a) == a,
        a.len() > 0,
        find_from(a, 0) is None,
        spec_trim(b) == b,
        b.len() > 0,
        find_from(b, 0) is None,
    ensures
        spec_update(st, tag, a, env, mfuel) is Some,
        ({
            let st1 = spec_update(st, tag, a, env, mfuel).unwrap();
            &&& st1.table[tag] == a
            &&& st1.diags == st.diags
            &&& spec_update(st1, tag, b, env, mfuel) is Some
            &&& {
                let st2 = spec_update(st1, tag, b, env, mfuel).unwrap();
                &&& st2.table[tag] == b
                &&& st2.diags == st.diags + seq![
                    DiagV::Overwrite { key: tag, previous: a, text: b },
                ]
            }
        }),
{
    lemma_resolve_idempotent_no_pattern(a, st.table, env, mfuel);
    let st1 = spec_update(st, tag, a, env, mfuel).unwrap();
    assert(st1.diags =~= st.diags);
    lemma_resolve_idempotent_no_pattern(b, st1.table, env, mfuel);
    let st2 = spec_update(st1, tag, b, env, mfuel).unwrap();
    assert(st2.diags =~= st.diags + seq![DiagV::Overwrite { key: tag, previous: a, text: b }]);
}

/// Configuration selection: under no chosen configuration, walking a
/// selector group whose children are two configuration items with distinct
/// `Include` values processes the first alone - it fixes the active
/// configuration - and skips the second entirely, so the whole walk equals
/// the walk of the first item.
pub proof fn lemma_config_selection(
    st: EState,
    c1: XmlElement,
    c2: XmlElement,
    inc1: Seq<char>,
    inc2: Seq<char>,
    files: Map<Seq<char>, Seq<XmlNode>>,
    fs: Map<Seq<char>, bool>,
    env: Map<Seq<char>, Seq<char>>,
    fuel: nat,
    mfuel: nat,
)
    requires
        st.config.len() == 0,
        inc1.len() > 0,
        inc1 != inc2,
        spec_lookup(c1.attrs@, "Include"@) == Some(inc1),
        spec_lookup(c2.attrs@, "Include"@) == Some(inc2),
        spec_traverse_element(
            EState { table: st.table, config: inc1, diags: st.diags },
            c1,
            files,
            fs,
            env,
            fuel,
            mfuel,
        ) is Ok,
        spec_traverse_element(
            EState { table: st.table, config: inc1, diags: st.diags },
            c1,
            files,
            fs,
            env,
            fuel,
            mfuel,
        )->Ok_0.config == inc1,
    ensures
        spec_config_children(
            st,
            seq![XmlNode::Element(c1), XmlNode::Element(c2)],
            0,
            files,
            fs,
            env,
            fuel,
            mfuel,
        ) == spec_traverse_element(
            EState { table: st.table, config: inc1, diags: st.diags },
            c1,
            files,
            fs,
            env,
            fuel,
            mfuel,
        ),
{
    let nodes = seq![XmlNode::Element(c1), XmlNode::Element(c2)];
    assert(nodes.len() == 2 && nodes[0] == XmlNode::Element(c1) && nodes[1] == XmlNode::Element(
        c2,
    ));
    let st1 = EState { table: st.table, config: inc1, diags: st.diags };
    let r1 = spec_traverse_element(st1, c1, files, fs, env, fuel, mfuel);
    let st2 = r1->Ok_0;
    assert(spec_config_children(st2, nodes, 1, files, fs, env, fuel, mfuel) == spec_config_children(
        st2,
        nodes,
        2,
        files,
        fs,
        env,
        fuel,
        mfuel,
    ));
}

// ---------------------------------------------------------------------------
// The executable resolver
// ---------------------------------------------------------------------------
/// The element is an `ItemGroup` labeled `ProjectConfigurations`.
fn is_config_group(e: &XmlElement) -> (r: bool)
    ensures
        r == is_config_group_spec(*e),
{
    if str_eq(e.name.as_str(), "ItemGroup") {
        match e.attribute("Label") {
            Some(v) => str_eq(v.as_str(), "ProjectConfigurations"),
            None => false,
        }
    } else {
        false
    }
}

impl Vcxproj {
    /// A fresh resolver: empty table, no configuration chosen, no
    /// diagnostics.
    pub fn new() -> (r: Vcxproj)
        ensures
            r@ == (EState {
                table: Map::<Seq<char>, Seq<char>>::empty(),
                config: Seq::<char>::empty(),
                diags: Seq::<DiagV>::empty(),
            }),
    {
        let r = Vcxproj { values: StringMap::new(), config: String::new(), diags: Vec::new() };
        proof {
            assert(diags_view(r.diags@) =~= Seq::<DiagV>::empty());
            assert(r@ =~= (EState {
                table: Map::<Seq<char>, Seq<char>>::empty(),
                config: Seq::<char>::empty(),
                diags: Seq::<DiagV>::empty(),
            }));
        }
        r
    }

    /// The active configuration; empty while none is chosen.
    pub fn config(&self) -> (r: &String)
        ensures
            r@ == self@.config,
    {
        &self.config
    }

    /// Seeds the five synthetic `MSBuildThisFile*` properties for a file.
    fn seed(&mut self, filename: &String) -> (r: Result<(), EvalError>)
        ensures
            ({
                let sr = spec_seed(old(self)@, filename@);
                match r {
                    Ok(_) => sr is Ok && final(self)@ == sr->Ok_0,
                    Err(e) => sr is Err && e@ == sr->Err_0,
                }
            }),
    {
        let name = file_name_of(filename.as_str());
        if name.as_str().unicode_len() == 0 {
            return Err(EvalError::BadPath(filename.clone()));
        }
        let ext = match extension_of(filename.as_str()) {
            Some(x) => x,
            None => { return Err(EvalError::BadPath(filename.clone())) },
        };
        let dir = directory_of(filename.as_str());
        let stem = stem_of(filename.as_str());
        self.values.insert(String::from_str("MSBuildThisFile"), name);
        self.values.insert(String::from_str("MSBuildThisFileDirectory"), dir);
        self.values.insert(String::from_str("MSBuildThisFileExtension"), ext);
        self.values.insert(String::from_str("MSBuildThisFileFullPath"), filename.clone());
        self.values.insert(String::from_str("MSBuildThisFileName"), stem);
        proof {
            assert(self@ =~= spec_seed(old(self)@, filename@)->Ok_0);
        }
        Ok(())
    }

    /// A property update from element text under the element named `tag`.
    fn update_map(&mut self, tag: &String, raw: &String, env: &StringMap, mfuel: usize) -> (r:
        Result<(), EvalError>)
        ensures
            ({
                let su = spec_update(old(self)@, tag@, raw@, env@, mfuel as nat);
                match r {
                    Ok(_) => su is Some && final(self)@ == su.unwrap(),
                    Err(e) => su is None && e@ == EvalErrorV::MacroDepthExceeded,
                }
            }),
    {
        let val = trim(raw.as_str());
        if val.unicode_len() == 0 {
            return Ok(());
        }
        let resolved = match resolve_variables(val, &self.values, env, mfuel, &mut self.diags) {
            Some(x) => x,
            None => { return Err(EvalError::MacroDepthExceeded) },
        };
        let prev = self.values.insert(tag.clone(), resolved);
        match prev {
            Some(old_v) => {
                let d = Diag::Overwrite { key: tag.clone(), previous: old_v, text: val.to_owned() };
                proof {
                    lemma_diags_view_push(self.diags@, d);
                }
                self.diags.push(d);
            },
            None => {},
        }
        proof {
            assert(self@ =~= spec_update(old(self)@, tag@, raw@, env@, mfuel as nat).unwrap());
        }
        Ok(())
    }

    /// Reads one file: seeds its synthetic properties, walks the supplied
    /// tree, and merges everything into this resolver's shared state.
    ///
    /// `import_fuel` bounds the depth of nested imports and `macro_fuel`
    /// the depth of nested macro replacement; a run that reaches either
    /// bound stops with the corresponding error instead of recursing
    /// without bound.
    #[verifier::loop_isolation(false)]
    pub fn read_vcxproj(
        &mut self,
        filename: &String,
        files: &FileSet,
        fs: &BoolMap,
        env: &StringMap,
        import_fuel: usize,
        macro_fuel: usize,
    ) -> (r: Result<(), EvalError>)
        ensures
            ({
                let sr = spec_read(
                    old(self)@,
                    filename@,
                    files@,
                    fs@,
                    env@,
                    import_fuel as nat,
                    macro_fuel as nat,
                );
                match r {
                    Ok(_) => sr is Ok && final(self)@ == sr->Ok_0,
                    Err(e) => sr is Err && e@ == sr->Err_0,
                }
            }),
        decreases import_fuel, 0int, 0int, 0int,
    {
        let ghost sr = spec_read(
            old(self)@,
            filename@,
            files@,
            fs@,
            env@,
            import_fuel as nat,
            macro_fuel as nat,
        );
        match self.seed(filename) {
            Ok(_) => {},
            Err(e) => { return Err(e) },
        }
        let tree = match files.get(filename.as_str()) {
            Some(t) => t,
            None => { return Err(EvalError::NeedFile(filename.clone())) },
        };
        if import_fuel == 0 {
            return Err(EvalError::ImportDepthExceeded);
        }
        let ghost nodes = tree@;
        proof {
            assert(sr == spec_traverse_children(
                self@,
                nodes,
                0,
                Option::<Seq<char>>::None,
                files@,
                fs@,
                env@,
                (import_fuel - 1) as nat,
                macro_fuel as nat,
            ));
        }
        let n = tree.len();
        for i in 0..n
            invariant
                n == tree@.len(),
                nodes == tree@,
                sr == spec_traverse_children(
                    self@,
                    nodes,
                    i as int,
                    Option::<Seq<char>>::None,
                    files@,
                    fs@,
                    env@,
                    (import_fuel - 1) as nat,
                    macro_fuel as nat,
                ),
                import_fuel >= 1,
        {
            match &tree[i] {
                XmlNode::Element(ce) => {
                    match self.traverse_element(ce, files, fs, env, import_fuel - 1, macro_fuel) {
                        Ok(_) => {},
                        Err(e) => { return Err(e) },
                    }
                },
                _ => {},
            }
        }
        Ok(())
    }

    /// One element of the walk: its condition gates the subtree, then the
    /// body dispatches on what the element is.
    #[verifier::loop_isolation(false)]
    fn traverse_element(
        &mut self,
        e: &XmlElement,
        files: &FileSet,
        fs: &BoolMap,
        env: &StringMap,
        ifuel: usize,
        mfuel: usize,
    ) -> (r: Result<(), EvalError>)
        ensures
            ({
                let sr = spec_traverse_element(
                    old(self)@,
                    *e,
                    files@,
                    fs@,
                    env@,
                    ifuel as nat,
                    mfuel as nat,
                );
                match r {
                    Ok(_) => sr is Ok && final(self)@ == sr->Ok_0,
                    Err(er) => sr is Err && er@ == sr->Err_0,
                }
            }),
        decreases ifuel, 1int, element_count(*e), 1int,
    {
        match e.attribute("Condition") {
            Some(raw) => {
                let cond = match resolve_variables(
                    raw.as_str(),
                    &self.values,
                    env,
                    mfuel,
                    &mut self.diags,
                ) {
                    Some(c) => c,
                    None => { return Err(EvalError::MacroDepthExceeded) },
                };
                let t = match ConditionParser::parse(cond.as_str()) {
                    Ok(t) => t,
                    Err(pe) => { return Err(EvalError::Parse(pe)) },
                };
                let mut paths_vec: Vec<String> = Vec::new();
                collect_exists_paths(&t, &mut paths_vec);
                let ghost pv = paths_vec.deep_view();
                proof {
                    assert(Seq::<Seq<char>>::empty() + exists_paths(t@) =~= exists_paths(t@));
                }
                let np = paths_vec.len();
                for i in 0..np
                    invariant
                        np == paths_vec@.len(),
                        pv == paths_vec.deep_view(),
                        pv.len() == np,
                        first_missing(pv, fs@, 0) == first_missing(pv, fs@, i as int),
                {
                    proof {
                        assert(pv[i as int] == paths_vec@[i as int]@);
                    }
                    match fs.get(paths_vec[i].as_str()) {
                        Some(_) => {},
                        None => { return Err(EvalError::NeedExists(paths_vec[i].clone())) },
                    }
                }
                if !eval_term_exec(&t, fs) {
                    return Ok(());
                }
                self.element_body(e, files, fs, env, ifuel, mfuel)
            },
            None => self.element_body(e, files, fs, env, ifuel, mfuel),
        }
    }

    /// The body of an element whose condition held.
    #[verifier::loop_isolation(false)]
    fn element_body(
        &mut self,
        e: &XmlElement,
        files: &FileSet,
        fs: &BoolMap,
        env: &StringMap,
        ifuel: usize,
        mfuel: usize,
    ) -> (r: Result<(), EvalError>)
        ensures
            ({
                let sr = spec_element_body(
                    old(self)@,
                    *e,
                    files@,
                    fs@,
                    env@,
                    ifuel as nat,
                    mfuel as nat,
                );
                match r {
                    Ok(_) => sr is Ok && final(self)@ == sr->Ok_0,
                    Err(er) => sr is Err && er@ == sr->Err_0,
                }
            }),
        decreases ifuel, 1int, element_count(*e), 0int,
    {
        let ghost sr = spec_element_body(
            old(self)@,
            *e,
            files@,
            fs@,
            env@,
            ifuel as nat,
            mfuel as nat,
        );
        if is_config_group(e) {
            let n = e.children.len();
            for i in 0..n
                invariant
                    n == e.children@.len(),
                    element_count(*e) == 1 + children_element_count(e.children@, 0),
                    sr == spec_config_children(
                        self@,
                        e.children@,
                        i as int,
                        files@,
                        fs@,
                        env@,
                        ifuel as nat,
                        mfuel as nat,
                    ),
            {
                match &e.children[i] {
                    XmlNode::Element(ce) => {
                        match ce.attribute("Include") {
                            Some(inc) => {
                                let chosen = self.config.as_str().unicode_len() == 0 || str_eq(
                                    self.config.as_str(),
                                    inc.as_str(),
                                );
                                if chosen {
                                    self.config = inc.clone();
                                    proof {
                                        lemma_children_count_ge(e.children@, 0, i as int, *ce);
                                    }
                                    match self.traverse_element(ce, files, fs, env, ifuel, mfuel) {
                                        Ok(_) => {},
                                        Err(er) => { return Err(er) },
                                    }
                                }
                            },
                            None => {},
                        }
                    },
                    _ => {},
                }
            }
            Ok(())
        } else {
            let import_attr: Option<&String> = if str_eq(e.name.as_str(), "Import") {
                e.attribute("Project")
            } else {
                None
            };
            match import_attr {
                Some(proj) => {
                    let fname = match resolve_variables(
                        proj.as_str(),
                        &self.values,
                        env,
                        mfuel,
                        &mut self.diags,
                    ) {
                        Some(f) => f,
                        None => { return Err(EvalError::MacroDepthExceeded) },
                    };
                    self.read_vcxproj(&fname, files, fs, env, ifuel, mfuel)
                },
                None => {
                    let n = e.children.len();
                    for i in 0..n
                        invariant
                            n == e.children@.len(),
                            element_count(*e) == 1 + children_element_count(e.children@, 0),
                            sr == spec_traverse_children(
                                self@,
                                e.children@,
                                i as int,
                                Some(e.name@),
                                files@,
                                fs@,
                                env@,
                                ifuel as nat,
                                mfuel as nat,
                            ),
                    {
                        match &e.children[i] {
                            XmlNode::Element(ce) => {
                                proof {
                                    lemma_children_count_ge(e.children@, 0, i as int, *ce);
                                }
                                match self.traverse_element(ce, files, fs, env, ifuel, mfuel) {
                                    Ok(_) => {},
                                    Err(er) => { return Err(er) },
                                }
                            },
                            XmlNode::Text(txt) => {
                                match self.update_map(&e.name, txt, env, mfuel) {
                                    Ok(_) => {},
                                    Err(er) => { return Err(er) },
                                }
                            },
                            _ => {},
                        }
                    }
                    Ok(())
                },
            }
        }
    }
}

} // verus!
