//! What a BUILD file says about its Java rules.
use vstd::prelude::*;
use crate::ide_info::strs_view;
use crate::strutil::str_eq;

verus! {

/// Kind of a Java rule in a BUILD file.
#[derive(Debug, Clone, Copy, PartialEq, Eq, Structural)]
pub enum RuleType {
    JavaLibrary,
    JavaBinary,
    JavaTest,
    JavaImport,
    JavaPlugin,
}

/// The rule names that denote Java rules, with their kinds.
pub open spec fn spec_rule_type(name: Seq<char>) -> Option<RuleType> {
    if name == "java_library"@ {
        Some(RuleType::JavaLibrary)
    } else if name == "java_binary"@ {
        Some(RuleType::JavaBinary)
    } else if name == "java_test"@ {
        Some(RuleType::JavaTest)
    } else if name == "java_import"@ {
        Some(RuleType::JavaImport)
    } else if name == "java_plugin"@ {
        Some(RuleType::JavaPlugin)
    } else {
        None
    }
}

impl RuleType {
    /// Whether a rule name denotes a Java rule.
    pub fn is_java_rule(name: &str) -> (b: bool)
        ensures
            b == spec_rule_type(name@) is Some,
    {
        Self::from_name(name).is_some()
    }

    /// The kind of a Java rule name.
    pub fn from_name(name: &str) -> (r: Option<RuleType>)
        ensures
            r == spec_rule_type(name@),
    {
        if str_eq(name, "java_library") {
            Some(RuleType::JavaLibrary)
        } else if str_eq(name, "java_binary") {
            Some(RuleType::JavaBinary)
        } else if str_eq(name, "java_test") {
            Some(RuleType::JavaTest)
        } else if str_eq(name, "java_import") {
            Some(RuleType::JavaImport)
        } else if str_eq(name, "java_plugin") {
            Some(RuleType::JavaPlugin)
        } else {
            None
        }
    }
}

/// One Java rule of a BUILD file.
#[derive(Debug, Clone)]
pub struct JavaRule {
    pub rule_type: RuleType,
    pub name: String,
    pub srcs: Vec<String>,
    pub deps: Vec<String>,
    pub runtime_deps: Vec<String>,
    pub resources: Vec<String>,
    pub plugins: Vec<String>,
    pub exports: Vec<String>,
    pub test_only: bool,
    pub visibility: Vec<String>,
}

pub struct JavaRuleView {
    pub rule_type: RuleType,
    pub name: Seq<char>,
    pub srcs: Seq<Seq<char>>,
    pub deps: Seq<Seq<char>>,
    pub runtime_deps: Seq<Seq<char>>,
    pub resources: Seq<Seq<char>>,
    pub plugins: Seq<Seq<char>>,
    pub exports: Seq<Seq<char>>,
    pub test_only: bool,
    pub visibility: Seq<Seq<char>>,
}

impl View for JavaRule {
    type V = JavaRuleView;

    open spec fn view(&self) -> JavaRuleView {
        JavaRuleView {
            rule_type: self.rule_type,
            name: self.name@,
            srcs: strs_view(self.srcs),
            deps: strs_view(self.deps),
            runtime_deps: strs_view(self.runtime_deps),
            resources: strs_view(self.resources),
            plugins: strs_view(self.plugins),
            exports: strs_view(self.exports),
            test_only: self.test_only,
            visibility: strs_view(self.visibility),
        }
    }
}

/// A `load(...)` statement: the loaded file and the imported symbols.
#[derive(Debug, Clone)]
pub struct LoadStatement {
    pub path: String,
    pub symbols: Vec<String>,
}

/// A parsed BUILD file: its path, the hash of its content, its Java rules
/// and its loads.
#[derive(Debug, Clone)]
pub struct ParsedBuildFile {
    pub path: String,
    pub content_hash: String,
    pub rules: Vec<JavaRule>,
    pub loads: Vec<LoadStatement>,
}

/// The views of a list of rules.
pub open spec fn rules_view(v: Seq<JavaRule>) -> Seq<JavaRuleView> {
    v.map_values(|r: JavaRule| r@)
}

} // verus!
