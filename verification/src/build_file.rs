//! What a BUILD file says about its Java rules: the walk over its syntax
//! tree, with the tree held as plain values.
use vstd::prelude::*;
use vstd::utf8::encode_utf8;
use crate::model::{JavaRule, JavaRuleView, LoadStatement, ParsedBuildFile, RuleType, spec_rule_type, rules_view};
use crate::ide_info::strs_view;
use crate::strutil::{concat2, concat3, str_eq, owned};
use crate::hashing::{hex_of, sha256_of, sha256_hex};
use crate::text_proto::clone_strings;
use crate::starlark::{parse_printed_module, parse_starlark, starlark_text_of, tree_fits};

verus! {

/// An expression of a BUILD file, as far as the rule extraction reads it.
#[derive(Debug)]
pub enum BuildExpr {
    Identifier(String),
    Str(String),
    List(Vec<BuildExpr>),
    Call(Box<BuildExpr>, Vec<BuildArg>),
    Other,
}

/// An argument of a call: its name when it is a named argument.
#[derive(Debug)]
pub struct BuildArg {
    pub name: Option<String>,
    pub value: BuildExpr,
}

/// A statement of a BUILD file, as far as the rule extraction reads it.
#[derive(Debug)]
pub enum BuildStmt {
    Expression(BuildExpr),
    Statements(Vec<BuildStmt>),
    Assign,
    If,
    /// A `for` loop, with its body.
    For(Box<BuildStmt>),
    /// A function definition, with its body.
    Def(Box<BuildStmt>),
    /// A `load`: the module and the local names it binds.
    Load(String, Vec<String>),
    Other,
}

/// A string literal's value, else the empty string.
pub open spec fn spec_extract_string(e: BuildExpr) -> Seq<char> {
    match e {
        BuildExpr::Str(s) => s@,
        _ => Seq::empty(),
    }
}

/// `True` is true; anything else is false.
pub open spec fn spec_extract_bool(e: BuildExpr) -> bool {
    match e {
        BuildExpr::Identifier(i) => i@ == "True"@,
        _ => false,
    }
}

/// The string literals among list items, in order.
pub open spec fn string_items(items: Seq<BuildExpr>) -> Seq<Seq<char>>
    decreases items.len(),
{
    if items.len() == 0 {
        Seq::empty()
    } else {
        let r = string_items(items.drop_last());
        match items.last() {
            BuildExpr::Str(s) => r.push(s@),
            _ => r,
        }
    }
}

/// The string literals of a list literal; nothing for other expressions.
pub open spec fn spec_extract_string_list(e: BuildExpr) -> Seq<Seq<char>> {
    match e {
        BuildExpr::List(items) => string_items(items@),
        _ => Seq::empty(),
    }
}

/// An expression that is a `glob(...)` call, a variable, or a list
/// holding one of them.
pub open spec fn spec_glob_or_var(e: BuildExpr) -> bool
    decreases e, 1int,
{
    match e {
        BuildExpr::Call(f, _) => match *f {
            BuildExpr::Identifier(i) => i@ == "glob"@,
            _ => false,
        },
        BuildExpr::List(items) => any_glob(items@, items@.len() as int),
        BuildExpr::Identifier(_) => true,
        _ => false,
    }
}

/// Some of the first `n` items is a glob or a variable.
pub open spec fn any_glob(items: Seq<BuildExpr>, n: int) -> bool
    decreases items, 0int, n,
{
    if n <= 0 || n > items.len() {
        false
    } else {
        any_glob(items, n - 1) || spec_glob_or_var(items[n - 1])
    }
}

/// The string value of an expression.
pub fn extract_string(e: &BuildExpr) -> (r: String)
    ensures
        r@ == spec_extract_string(*e),
{
    match e {
        BuildExpr::Str(s) => s.clone(),
        _ => String::new(),
    }
}

/// The boolean value of an expression.
pub fn extract_bool(e: &BuildExpr) -> (b: bool)
    ensures
        b == spec_extract_bool(*e),
{
    match e {
        BuildExpr::Identifier(i) => str_eq(i.as_str(), "True"),
        _ => false,
    }
}

/// The string literals of a list expression.
pub fn extract_string_list(e: &BuildExpr) -> (r: Vec<String>)
    ensures
        strs_view(r) == spec_extract_string_list(*e),
{
    let mut r: Vec<String> = Vec::new();
    match e {
        BuildExpr::List(items) => {
            let mut k: usize = 0;
            while k < items.len()
                invariant
                    k <= items@.len(),
                    strs_view(r) == string_items(items@.subrange(0, k as int)),
                decreases items@.len() - k,
            {
                proof {
                    let t = items@.subrange(0, k + 1);
                    assert(t.drop_last() =~= items@.subrange(0, k as int));
                    assert(t.last() == items@[k as int]);
                }
                match &items[k] {
                    BuildExpr::Str(s) => {
                        let ghost before = r@;
                        let x = s.clone();
                        r.push(x);
                        proof {
                            crate::graph::lemma_str_list_push(before, x);
                        }
                    },
                    _ => {},
                }
                k = k + 1;
            }
            proof {
                assert(items@.subrange(0, items@.len() as int) =~= items@);
            }
        },
        _ => {},
    }
    r
}

/// Whether an expression is a `glob(...)` call, a variable, or a list
/// holding one of them.
pub fn contains_glob_or_variable(e: &BuildExpr) -> (b: bool)
    ensures
        b == spec_glob_or_var(*e),
    decreases *e,
{
    match e {
        BuildExpr::Call(f, _) => match &**f {
            BuildExpr::Identifier(i) => str_eq(i.as_str(), "glob"),
            _ => false,
        },
        BuildExpr::List(items) => {
            let mut r = false;
            let mut k: usize = 0;
            while k < items.len()
                invariant
                    k <= items@.len(),
                    *e == BuildExpr::List(*items),
                    r == any_glob(items@, k as int),
                decreases items@.len() - k,
            {
                proof {
                    assert(decreases_to!(*e => (*e)->List_0));
                    assert(decreases_to!((*e)->List_0 => (*e)->List_0@));
                    assert(decreases_to!((*e)->List_0@ => (*e)->List_0@[k as int]));
                    assert(decreases_to!(*e => items@[k as int]));
                }
                if contains_glob_or_variable(&items[k]) {
                    r = true;
                }
                k = k + 1;
            }
            r
        },
        BuildExpr::Identifier(_) => true,
        _ => false,
    }
}

/// A rule with only its kind set.
pub open spec fn empty_rule(rt: RuleType) -> JavaRuleView {
    JavaRuleView {
        rule_type: rt,
        name: Seq::empty(),
        srcs: Seq::empty(),
        deps: Seq::empty(),
        runtime_deps: Seq::empty(),
        resources: Seq::empty(),
        plugins: Seq::empty(),
        exports: Seq::empty(),
        test_only: false,
        visibility: Seq::empty(),
    }
}

/// One argument applied to the rule being read: a named argument sets its
/// attribute (a later one wins); `srcs` and `resources` that are globs or
/// variables raise the flag; other arguments are ignored.
pub open spec fn apply_arg(acc: (JavaRuleView, bool), a: BuildArg) -> (JavaRuleView, bool) {
    let r = acc.0;
    let v = a.value;
    match a.name {
        Some(k) => if k@ == "name"@ {
            (JavaRuleView { name: spec_extract_string(v), ..r }, acc.1)
        } else if k@ == "srcs"@ {
            (JavaRuleView { srcs: spec_extract_string_list(v), ..r }, acc.1 || spec_glob_or_var(v))
        } else if k@ == "deps"@ {
            (JavaRuleView { deps: spec_extract_string_list(v), ..r }, acc.1)
        } else if k@ == "runtime_deps"@ {
            (JavaRuleView { runtime_deps: spec_extract_string_list(v), ..r }, acc.1)
        } else if k@ == "resources"@ {
            (JavaRuleView { resources: spec_extract_string_list(v), ..r }, acc.1 || spec_glob_or_var(v))
        } else if k@ == "plugins"@ {
            (JavaRuleView { plugins: spec_extract_string_list(v), ..r }, acc.1)
        } else if k@ == "exports"@ {
            (JavaRuleView { exports: spec_extract_string_list(v), ..r }, acc.1)
        } else if k@ == "testonly"@ {
            (JavaRuleView { test_only: spec_extract_bool(v), ..r }, acc.1)
        } else if k@ == "visibility"@ {
            (JavaRuleView { visibility: spec_extract_string_list(v), ..r }, acc.1)
        } else {
            acc
        },
        None => acc,
    }
}

/// The rule read from call arguments, in order.
pub open spec fn rule_fields(args: Seq<BuildArg>, rt: RuleType, flag: bool) -> (JavaRuleView, bool)
    decreases args.len(),
{
    if args.len() == 0 {
        (empty_rule(rt), flag)
    } else {
        apply_arg(rule_fields(args.drop_last(), rt, flag), args.last())
    }
}

/// A call statement: a call of a Java rule kind adds the rule it
/// declares, unless it has no name.
pub open spec fn call_rule(f: BuildExpr, args: Seq<BuildArg>, rules: Seq<JavaRuleView>, flag: bool) -> (Seq<JavaRuleView>, bool) {
    match f {
        BuildExpr::Identifier(id) => match spec_rule_type(id@) {
            Some(rt) => {
                let (r, fl) = rule_fields(args, rt, flag);
                if r.name.len() > 0 {
                    (rules.push(r), fl)
                } else {
                    (rules, fl)
                }
            },
            None => (rules, flag),
        },
        _ => (rules, flag),
    }
}

/// The loads as module and names.
pub open spec fn loads_view(v: Seq<LoadStatement>) -> Seq<(Seq<char>, Seq<Seq<char>>)> {
    v.map_values(|l: LoadStatement| (l.path@, strs_view(l.symbols)))
}

/// The walk over a statement: rule calls add rules; statement lists are
/// walked in order; loops and definitions raise the flag and are walked;
/// assignments and conditionals raise the flag; loads are recorded.
pub open spec fn visit(
    s: BuildStmt,
    st: (Seq<JavaRuleView>, Seq<(Seq<char>, Seq<Seq<char>>)>, bool),
) -> (Seq<JavaRuleView>, Seq<(Seq<char>, Seq<Seq<char>>)>, bool)
    decreases s, 1int,
{
    match s {
        BuildStmt::Expression(e) => match e {
            BuildExpr::Call(f, args) => {
                let (rs, fl) = call_rule(*f, args@, st.0, st.2);
                (rs, st.1, fl)
            },
            _ => st,
        },
        BuildStmt::Statements(ss) => visit_all(ss@, ss@.len() as int, st),
        BuildStmt::Assign => (st.0, st.1, true),
        BuildStmt::If => (st.0, st.1, true),
        BuildStmt::For(b) => visit(*b, (st.0, st.1, true)),
        BuildStmt::Def(b) => visit(*b, (st.0, st.1, true)),
        BuildStmt::Load(m, syms) => (st.0, st.1.push((m@, strs_view(syms))), st.2),
        BuildStmt::Other => st,
    }
}

/// The walk over the first `n` statements, in order.
pub open spec fn visit_all(
    ss: Seq<BuildStmt>,
    n: int,
    st: (Seq<JavaRuleView>, Seq<(Seq<char>, Seq<Seq<char>>)>, bool),
) -> (Seq<JavaRuleView>, Seq<(Seq<char>, Seq<Seq<char>>)>, bool)
    decreases ss, 0int, n,
{
    if n <= 0 || n > ss.len() {
        st
    } else {
        visit(ss[n - 1], visit_all(ss, n - 1, st))
    }
}

/// Adds the rule a call declares, if the call is of a Java rule kind and
/// names its rule.
pub fn extract_rule_call(func: &BuildExpr, args: &Vec<BuildArg>, rules: &mut Vec<JavaRule>, has_glob_or_var: &mut bool)
    ensures
        (rules_view(final(rules)@), *final(has_glob_or_var)) == call_rule(*func, args@, rules_view(old(rules)@), *old(has_glob_or_var)),
{
    let rule_name = match func {
        BuildExpr::Identifier(id) => id,
        _ => {
            return;
        },
    };
    let rt = match RuleType::from_name(rule_name.as_str()) {
        Some(t) => t,
        None => {
            return;
        },
    };
    let ghost f0 = *has_glob_or_var;
    let mut name = String::new();
    let mut srcs: Vec<String> = Vec::new();
    let mut deps: Vec<String> = Vec::new();
    let mut runtime_deps: Vec<String> = Vec::new();
    let mut resources: Vec<String> = Vec::new();
    let mut plugins: Vec<String> = Vec::new();
    let mut exports: Vec<String> = Vec::new();
    let mut test_only = false;
    let mut visibility: Vec<String> = Vec::new();
    let mut k: usize = 0;
    proof {
        assert(strs_view(srcs) =~= Seq::<Seq<char>>::empty());
        assert(strs_view(deps) =~= Seq::<Seq<char>>::empty());
        assert(strs_view(runtime_deps) =~= Seq::<Seq<char>>::empty());
        assert(strs_view(resources) =~= Seq::<Seq<char>>::empty());
        assert(strs_view(plugins) =~= Seq::<Seq<char>>::empty());
        assert(strs_view(exports) =~= Seq::<Seq<char>>::empty());
        assert(strs_view(visibility) =~= Seq::<Seq<char>>::empty());
    }
    while k < args.len()
        invariant
            k <= args@.len(),
            rules@ == old(rules)@,
            (JavaRuleView {
                rule_type: rt,
                name: name@,
                srcs: strs_view(srcs),
                deps: strs_view(deps),
                runtime_deps: strs_view(runtime_deps),
                resources: strs_view(resources),
                plugins: strs_view(plugins),
                exports: strs_view(exports),
                test_only: test_only,
                visibility: strs_view(visibility),
            }, *has_glob_or_var) == rule_fields(args@.subrange(0, k as int), rt, f0),
        decreases args@.len() - k,
    {
        proof {
            let t = args@.subrange(0, k + 1);
            assert(t.drop_last() =~= args@.subrange(0, k as int));
            assert(t.last() == args@[k as int]);
        }
        let a = &args[k];
        match &a.name {
            Some(key) => {
                let key = key.as_str();
                if str_eq(key, "name") {
                    name = extract_string(&a.value);
                } else if str_eq(key, "srcs") {
                    srcs = extract_string_list(&a.value);
                    if contains_glob_or_variable(&a.value) {
                        *has_glob_or_var = true;
                    }
                } else if str_eq(key, "deps") {
                    deps = extract_string_list(&a.value);
                } else if str_eq(key, "runtime_deps") {
                    runtime_deps = extract_string_list(&a.value);
                } else if str_eq(key, "resources") {
                    resources = extract_string_list(&a.value);
                    if contains_glob_or_variable(&a.value) {
                        *has_glob_or_var = true;
                    }
                } else if str_eq(key, "plugins") {
                    plugins = extract_string_list(&a.value);
                } else if str_eq(key, "exports") {
                    exports = extract_string_list(&a.value);
                } else if str_eq(key, "testonly") {
                    test_only = extract_bool(&a.value);
                } else if str_eq(key, "visibility") {
                    visibility = extract_string_list(&a.value);
                }
            },
            None => {},
        }
        k = k + 1;
    }
    proof {
        assert(args@.subrange(0, args@.len() as int) =~= args@);
    }
    if !name.as_str().is_empty() {
        let rule = JavaRule {
            rule_type: rt,
            name,
            srcs,
            deps,
            runtime_deps,
            resources,
            plugins,
            exports,
            test_only,
            visibility,
        };
        let ghost before = rules@;
        rules.push(rule);
        proof {
            assert(rules_view(rules@) =~= rules_view(before).push(rule@));
        }
    }
}

/// Walks a statement, collecting the Java rules and loads it declares.
pub fn visit_statements(
    stmt: &BuildStmt,
    rules: &mut Vec<JavaRule>,
    loads: &mut Vec<LoadStatement>,
    has_glob_or_var: &mut bool,
)
    ensures
        (rules_view(final(rules)@), loads_view(final(loads)@), *final(has_glob_or_var)) == visit(
            *stmt,
            (rules_view(old(rules)@), loads_view(old(loads)@), *old(has_glob_or_var)),
        ),
    decreases *stmt,
{
    match stmt {
        BuildStmt::Expression(e) => {
            match e {
                BuildExpr::Call(f, args) => {
                    extract_rule_call(&**f, args, rules, has_glob_or_var);
                },
                _ => {},
            }
        },
        BuildStmt::Statements(ss) => {
            let ghost st0 = (rules_view(rules@), loads_view(loads@), *has_glob_or_var);
            let mut k: usize = 0;
            while k < ss.len()
                invariant
                    k <= ss@.len(),
                    *stmt == BuildStmt::Statements(*ss),
                    (rules_view(rules@), loads_view(loads@), *has_glob_or_var) == visit_all(ss@, k as int, st0),
                decreases ss@.len() - k,
            {
                proof {
                    assert(decreases_to!(*stmt => (*stmt)->Statements_0));
                    assert(decreases_to!((*stmt)->Statements_0 => (*stmt)->Statements_0@));
                    assert(decreases_to!((*stmt)->Statements_0@ => (*stmt)->Statements_0@[k as int]));
                    assert(decreases_to!(*stmt => ss@[k as int]));
                }
                visit_statements(&ss[k], rules, loads, has_glob_or_var);
                k = k + 1;
            }
        },
        BuildStmt::Assign => {
            *has_glob_or_var = true;
        },
        BuildStmt::If => {
            *has_glob_or_var = true;
        },
        BuildStmt::For(b) => {
            *has_glob_or_var = true;
            proof {
                assert(decreases_to!(*stmt => (*stmt)->For_0));
            }
            visit_statements(&**b, rules, loads, has_glob_or_var);
        },
        BuildStmt::Def(b) => {
            *has_glob_or_var = true;
            proof {
                assert(decreases_to!(*stmt => (*stmt)->Def_0));
            }
            visit_statements(&**b, rules, loads, has_glob_or_var);
        },
        BuildStmt::Load(m, syms) => {
            let l = LoadStatement { path: m.clone(), symbols: clone_strings(syms) };
            let ghost before = loads@;
            loads.push(l);
            proof {
                assert(loads_view(loads@) =~= loads_view(before).push((m@, strs_view(*syms))));
            }
        },
        BuildStmt::Other => {},
    }
}

/// Why a BUILD file could not be read.
#[derive(Debug, Clone)]
pub enum ParseError {
    SyntaxError { path: String, message: String },
    IoError { path: String, error: String },
}

impl ParseError {
    /// The error as text.
    pub fn message(&self) -> (m: String)
        ensures
            m@ == match self {
                ParseError::SyntaxError { path, message } => "Failed to parse BUILD file "@ + path@ + ": "@ + message@,
                ParseError::IoError { path, error } => "IO error reading BUILD file "@ + path@ + ": "@ + error@,
            },
    {
        match self {
            ParseError::SyntaxError { path, message } => {
                let a = concat3("Failed to parse BUILD file ", path.as_str(), ": ");
                concat2(a.as_str(), message.as_str())
            },
            ParseError::IoError { path, error } => {
                let a = concat3("IO error reading BUILD file ", path.as_str(), ": ");
                concat2(a.as_str(), error.as_str())
            },
        }
    }
}

/// Reads the Java rules of BUILD files.
pub struct BuildFileParser;

/// The lowercase hexadecimal SHA-256 digest of a text's UTF-8 bytes.
pub open spec fn spec_content_hash(content: Seq<char>) -> Seq<char> {
    hex_of(sha256_of(encode_utf8(content)))
}

impl BuildFileParser {
    /// A parser.
    pub fn new() -> (r: Self)
        ensures
            r == BuildFileParser,
    {
        BuildFileParser
    }

    /// The hash of a BUILD file's content.
    pub fn compute_hash(content: &str) -> (r: String)
        ensures
            r@ == spec_content_hash(content@),
            r@.len() == 64,
    {
        sha256_hex(content.as_bytes())
    }

    /// The parsed BUILD file at `path` with `content`, given the syntax
    /// tree of its content, or `None` when the content does not parse (then
    /// it has no rules and no loads).
    pub fn parse_module(&self, path: &str, content: &str, module: Option<&BuildStmt>) -> (r: ParsedBuildFile)
        ensures
            r.path@ == path@,
            r.content_hash@ == spec_content_hash(content@),
            match module {
                Some(m) => {
                    let v = visit(*m, (Seq::empty(), Seq::empty(), false));
                    rules_view(r.rules@) == v.0 && loads_view(r.loads@) == v.1
                },
                None => r.rules@.len() == 0 && r.loads@.len() == 0,
            },
    {
        let content_hash = Self::compute_hash(content);
        let mut rules: Vec<JavaRule> = Vec::new();
        let mut loads: Vec<LoadStatement> = Vec::new();
        let mut has_glob_or_var = false;
        match module {
            Some(m) => {
                proof {
                    assert(rules_view(rules@) =~= Seq::<JavaRuleView>::empty());
                    assert(loads_view(loads@) =~= Seq::<(Seq<char>, Seq<Seq<char>>)>::empty());
                }
                visit_statements(m, &mut rules, &mut loads, &mut has_glob_or_var);
            },
            None => {},
        }
        ParsedBuildFile { path: owned(path), content_hash, rules, loads }
    }
}

impl BuildFileParser {
    /// The parsed BUILD file at `path` with `content`, given what the
    /// Starlark parser printed back for the content (`None` when the
    /// content did not parse): the rules and loads of the module that
    /// fits the printed text.
    pub fn parse_printed_content(&self, path: &str, content: &str, printed: Option<&str>) -> (r: ParsedBuildFile)
        ensures
            r.path@ == path@,
            r.content_hash@ == spec_content_hash(content@),
            match printed {
                Some(text) => exists|m: BuildStmt| #[trigger] tree_fits(m, text@) && {
                    let v = visit(m, (Seq::empty(), Seq::empty(), false));
                    rules_view(r.rules@) == v.0 && loads_view(r.loads@) == v.1
                },
                None => r.rules@.len() == 0 && r.loads@.len() == 0,
            },
    {
        match printed {
            Some(text) => {
                let tree = parse_printed_module(text);
                self.parse_module(path, content, Some(&tree))
            },
            None => self.parse_module(path, content, None),
        }
    }

    /// Parses the BUILD file at `path` with `content`: its Java rules and
    /// its loads, read from the module that `starlark_syntax` parses from
    /// the content; content that does not parse gives no rules and no
    /// loads.
    pub fn parse_content(&self, path: &str, content: &str) -> (r: ParsedBuildFile)
        ensures
            r.path@ == path@,
            r.content_hash@ == spec_content_hash(content@),
            match starlark_text_of(path@, content@) {
                Some(text) => exists|m: BuildStmt| #[trigger] tree_fits(m, text) && {
                    let v = visit(m, (Seq::empty(), Seq::empty(), false));
                    rules_view(r.rules@) == v.0 && loads_view(r.loads@) == v.1
                },
                None => r.rules@.len() == 0 && r.loads@.len() == 0,
            },
    {
        let printed = parse_starlark(path, content);
        let parsed = match &printed {
            Some(text) => self.parse_printed_content(path, content, Some(text.as_str())),
            None => self.parse_printed_content(path, content, None),
        };
        proof {
            if let Some(text) = printed {
                let m = choose|m: BuildStmt| #[trigger] tree_fits(m, text@) && {
                    let v = visit(m, (Seq::empty(), Seq::empty(), false));
                    rules_view(parsed.rules@) == v.0 && loads_view(parsed.loads@) == v.1
                };
                assert(tree_fits(m, text@));
                assert(starlark_text_of(path@, content@) matches Some(t) && t == text@);
            }
        }
        parsed
    }
}

impl Default for BuildFileParser {
    fn default() -> (r: Self)
        ensures
            r == BuildFileParser,
    {
        Self::new()
    }
}

/// The argument is named `k`.
pub open spec fn arg_named(a: BuildArg, k: Seq<char>) -> bool {
    a.name matches Some(n) && n@ == k
}

/// The value of the last argument named `k`, if any.
pub open spec fn named_value(args: Seq<BuildArg>, k: Seq<char>) -> Option<BuildExpr>
    decreases args.len(),
{
    if args.len() == 0 {
        None
    } else if arg_named(args.last(), k) {
        Some(args.last().value)
    } else {
        named_value(args.drop_last(), k)
    }
}

/// The string literals of the list given as the last argument named `k`;
/// nothing when there is no such argument.
pub open spec fn list_arg(args: Seq<BuildArg>, k: Seq<char>) -> Seq<Seq<char>> {
    match named_value(args, k) {
        Some(v) => spec_extract_string_list(v),
        None => Seq::empty(),
    }
}

/// Some argument named `k` is a glob or a variable.
pub open spec fn glob_arg(args: Seq<BuildArg>, k: Seq<char>) -> bool {
    exists|i: int| 0 <= i < args.len() && arg_named(#[trigger] args[i], k) && spec_glob_or_var(args[i].value)
}

/// Each attribute of a rule read from call arguments comes from the last
/// argument of its own name (a string literal for `name`, `True` for
/// `testonly`, string literals of a list for the list attributes), and is
/// empty when there is none: an argument never sets another attribute.
/// The flag is raised by a `srcs` or `resources` argument that is a glob
/// or a variable.
pub proof fn law_rule_attributes_come_from_their_arguments(args: Seq<BuildArg>, rt: RuleType, flag: bool)
    ensures
        rule_fields(args, rt, flag).0.rule_type == rt,
        rule_fields(args, rt, flag).0.name == match named_value(args, "name"@) {
            Some(v) => spec_extract_string(v),
            None => Seq::empty(),
        },
        rule_fields(args, rt, flag).0.srcs == list_arg(args, "srcs"@),
        rule_fields(args, rt, flag).0.deps == list_arg(args, "deps"@),
        rule_fields(args, rt, flag).0.runtime_deps == list_arg(args, "runtime_deps"@),
        rule_fields(args, rt, flag).0.resources == list_arg(args, "resources"@),
        rule_fields(args, rt, flag).0.plugins == list_arg(args, "plugins"@),
        rule_fields(args, rt, flag).0.exports == list_arg(args, "exports"@),
        rule_fields(args, rt, flag).0.visibility == list_arg(args, "visibility"@),
        rule_fields(args, rt, flag).0.test_only == match named_value(args, "testonly"@) {
            Some(v) => spec_extract_bool(v),
            None => false,
        },
        rule_fields(args, rt, flag).1 == (flag || glob_arg(args, "srcs"@) || glob_arg(args, "resources"@)),
    decreases args.len(),
{
    reveal_strlit("name");
    reveal_strlit("srcs");
    reveal_strlit("deps");
    reveal_strlit("runtime_deps");
    reveal_strlit("resources");
    reveal_strlit("plugins");
    reveal_strlit("exports");
    reveal_strlit("testonly");
    reveal_strlit("visibility");
    assert("name"@[0] == 'n' && "srcs"@[0] == 's' && "deps"@[0] == 'd' && "plugins"@[0] == 'p');
    assert("exports"@[0] == 'e' && "testonly"@[0] == 't' && "visibility"@[0] == 'v');
    assert("runtime_deps"@[0] == 'r' && "resources"@[0] == 'r');
    assert("runtime_deps"@.len() == 12 && "resources"@.len() == 9);
    if args.len() > 0 {
        let p = args.drop_last();
        law_rule_attributes_come_from_their_arguments(p, rt, flag);
        let l = args.last();
        assert(args[args.len() - 1] == l);
        assert(rule_fields(args, rt, flag) == apply_arg(rule_fields(p, rt, flag), l));
        assert forall|k: Seq<char>| #[trigger] named_value(args, k) == if arg_named(l, k) {
            Some(l.value)
        } else {
            named_value(p, k)
        } by {}
        match l.name {
            Some(n) => {
                if n@ == "name"@ {
                } else if n@ == "srcs"@ {
                } else if n@ == "deps"@ {
                } else if n@ == "runtime_deps"@ {
                } else if n@ == "resources"@ {
                } else if n@ == "plugins"@ {
                } else if n@ == "exports"@ {
                } else if n@ == "testonly"@ {
                } else if n@ == "visibility"@ {
                } else {
                }
            },
            None => {},
        }
        assert forall|k: Seq<char>| #[trigger] glob_arg(args, k) <==> (glob_arg(p, k) || (arg_named(l, k) && spec_glob_or_var(l.value))) by {
            if glob_arg(args, k) {
                let i = choose|i: int| 0 <= i < args.len() && arg_named(#[trigger] args[i], k) && spec_glob_or_var(args[i].value);
                if i < p.len() {
                    assert(p[i] == args[i]);
                }
            }
            if glob_arg(p, k) {
                let i = choose|i: int| 0 <= i < p.len() && arg_named(#[trigger] p[i], k) && spec_glob_or_var(p[i].value);
                assert(args[i] == p[i]);
            }
        }
    }
}

/// The rule kind a call names: a Java rule kind called by its name.
pub open spec fn called_kind(f: BuildExpr) -> Option<RuleType> {
    match f {
        BuildExpr::Identifier(id) => spec_rule_type(id@),
        _ => None,
    }
}

/// The string literal of the last `name` argument; empty without one.
pub open spec fn name_arg(args: Seq<BuildArg>) -> Seq<char> {
    match named_value(args, "name"@) {
        Some(v) => spec_extract_string(v),
        None => Seq::empty(),
    }
}

/// A call statement adds at most one rule and keeps the rules before it:
/// it adds one exactly when it calls a Java rule kind by name with a
/// non-empty string `name` argument, and the rule added has that kind and
/// the attributes read from the call's arguments.
pub proof fn law_rule_call_adds_one_named_java_rule(f: BuildExpr, args: Seq<BuildArg>, rules: Seq<JavaRuleView>, flag: bool)
    ensures
        call_rule(f, args, rules, flag).0.len() <= rules.len() + 1,
        call_rule(f, args, rules, flag).0.subrange(0, rules.len() as int) == rules,
        call_rule(f, args, rules, flag).0.len() == rules.len() + 1 <==> (called_kind(f) is Some && name_arg(args).len() > 0),
        (called_kind(f) is Some && call_rule(f, args, rules, flag).0.len() == rules.len() + 1) ==> call_rule(
            f,
            args,
            rules,
            flag,
        ).0.last() == rule_fields(args, called_kind(f).unwrap(), flag).0,
{
    match f {
        BuildExpr::Identifier(id) => match spec_rule_type(id@) {
            Some(rt) => {
                law_rule_attributes_come_from_their_arguments(args, rt, flag);
                assert(rules.push(rule_fields(args, rt, flag).0).subrange(0, rules.len() as int) =~= rules);
            },
            None => {
                assert(rules.subrange(0, rules.len() as int) =~= rules);
            },
        },
        _ => {
            assert(rules.subrange(0, rules.len() as int) =~= rules);
        },
    }
}

/// The expression is the string literal `x`.
pub open spec fn is_literal(e: BuildExpr, x: Seq<char>) -> bool {
    e matches BuildExpr::Str(s) && s@ == x
}

/// The string list of a list literal holds exactly the values of its
/// string literal items, no more of them than there are items, and a
/// list of string literals gives all of them in order.
pub proof fn law_string_list_is_the_literals(items: Seq<BuildExpr>, x: Seq<char>)
    ensures
        string_items(items).contains(x) <==> exists|i: int| 0 <= i < items.len() && is_literal(#[trigger] items[i], x),
        string_items(items).len() <= items.len(),
        (forall|i: int| 0 <= i < items.len() ==> #[trigger] items[i] is Str) ==> string_items(items).len() == items.len()
            && forall|i: int| 0 <= i < items.len() ==> is_literal(#[trigger] items[i], string_items(items)[i]),
    decreases items.len(),
{
    broadcast use vstd::seq_lib::lemma_seq_contains_after_push;
    if items.len() > 0 {
        let p = items.drop_last();
        law_string_list_is_the_literals(p, x);
        assert(items[items.len() - 1] == items.last());
        if exists|i: int| 0 <= i < items.len() && is_literal(#[trigger] items[i], x) {
            let i = choose|i: int| 0 <= i < items.len() && is_literal(#[trigger] items[i], x);
            if i < p.len() {
                assert(p[i] == items[i]);
            }
        }
        if exists|i: int| 0 <= i < p.len() && is_literal(#[trigger] p[i], x) {
            let i = choose|i: int| 0 <= i < p.len() && is_literal(#[trigger] p[i], x);
            assert(items[i] == p[i]);
        }
        if forall|i: int| 0 <= i < items.len() ==> #[trigger] items[i] is Str {
            assert forall|i: int| 0 <= i < p.len() implies #[trigger] p[i] is Str by {
                assert(p[i] == items[i]);
            }
            assert forall|i: int| 0 <= i < items.len() implies is_literal(#[trigger] items[i], string_items(items)[i]) by {
                if i < p.len() {
                    assert(p[i] == items[i]);
                }
            }
        }
    }
}

} // verus!
