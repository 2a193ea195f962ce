//! The analysis passes and the orchestration that runs them over a project.
//!
//! The work on a project falls into units, one for each file: the line scan
//! of a file that is not source code of the analysed language, and the line
//! scan, tree scan and function-wise taint tracking of a parsed source
//! file. The units are independent of each other and their findings may be
//! collected in any order. The project-wide taint tracking is added, and
//! of findings with the same fingerprint only the first is kept.

pub mod ast_analysis;
pub mod config_analysis;
pub mod program_taint;
pub mod reporting;
pub mod taint_analysis;

use crate::analysis::ast_analysis::{scan_ast, tree_findings};
use crate::analysis::config_analysis::{
    line_findings, line_fires, rule_applies, scan_file, scan_findings,
};
use crate::analysis::program_taint::{analyze_program_for_taint, program_findings};
use crate::analysis::taint_analysis::{analyze_function, least_fixpoint, reported};
use crate::ast_parser::{
    find_functions, function_kinds, nodes_view, nodes_with_kind, preorder, AstNode, PythonFile,
};
use crate::graph::call_graph_builder::{build_call_graph, content_table, function_table};
use crate::graph::cfg_builder::{build_cfg, cfg_of};
use crate::issues::{fingerprint_of, fingerprints_of, issue_views, Issue, IssueView};
use crate::patterns::{glob_matches, wildcard_match};
use crate::rules::{finding_of, Rule, RuleSet};
use crate::text::{
    chars_of, contains, has_infix, has_prefix, last_index_end, lines_of, occurs_at, strings_view,
};
use std::path::Path;
use vstd::prelude::*;
use vstd::seq_lib::seq_to_set_is_finite;
use vstd::set_lib::lemma_len_subset;
use vstd::string::*;

verus! {

/// What a scan works on: the root of the project, the exclusions, the rule
/// catalog, and the parsed source files.
pub struct AnalysisContext<'a> {
    pub root_path: String,
    pub exclusions: Vec<String>,
    pub ruleset: RuleSet,
    pub py_files: &'a [PythonFile],
}

/// A regular file found under the project root, with its text.
#[derive(Debug)]
pub struct WalkedFile {
    pub path: String,
    pub content: String,
}

/// A file found under the project root, with the name and the extension
/// that its path ends in.
#[derive(Debug)]
pub struct GenericUnit<'a> {
    pub file: &'a WalkedFile,
    pub file_name: String,
    pub extension: Option<String>,
}

/// A parsed source file, with the name that its path ends in.
#[derive(Debug)]
pub struct ParsedUnit<'a> {
    pub file: &'a PythonFile,
    pub file_name: String,
}

/// Whether a path has the plain form that every platform reads alike: it is
/// not empty, it holds neither `\` nor `:`, it does not start with `//`, and
/// it ends neither in `/` nor in `.`. The last component of such a path is
/// the text after its last `/`.
pub open spec fn plain_path(path: Seq<char>) -> bool {
    &&& path.len() > 0
    &&& !path.contains('\\')
    &&& !path.contains(':')
    &&& !has_prefix(path, seq!['/', '/'])
    &&& path.last() != '/'
    &&& path.last() != '.'
}

/// The name of the file of a plain path: the text after its last `/`.
pub open spec fn base_name(path: Seq<char>) -> Seq<char> {
    path.subrange(last_index_end(path, '/', path.len() as int), path.len() as int)
}

/// The extension of the file name `name`: the text after its last `.`. A
/// name without a `.`, and a name whose only `.` is its first character, has
/// none.
pub open spec fn extension_of(name: Seq<char>) -> Option<Seq<char>> {
    let dot = last_index_end(name, '.', name.len() as int);
    if dot <= 1 {
        None
    } else {
        Some(name.subrange(dot, name.len() as int))
    }
}

/// Whether `file_name` can be the name of the file `path`: it occurs in the
/// path, and if the path is plain, it is the text after the last `/`.
pub open spec fn fits_as_name(file_name: Seq<char>, path: Seq<char>) -> bool {
    &&& has_infix(path, file_name)
    &&& plain_path(path) ==> file_name == base_name(path)
}

/// Whether `extension` can be the extension of the file `path`: it holds no
/// `.` and occurs in the path behind a `.`, and if the path is plain, it is
/// the extension of the name of the file.
pub open spec fn fits_as_extension(extension: Option<String>, path: Seq<char>) -> bool {
    &&& match extension {
        Some(e) => !e@.contains('.') && has_infix(path, seq!['.'] + e@),
        None => true,
    }
    &&& plain_path(path) ==> match extension {
        Some(e) => extension_of(base_name(path)) == Some(e@),
        None => extension_of(base_name(path)) is None,
    }
}

/// Whether `found` can be what the last component of `path` is found to be:
/// a name that fits the path, or nothing, which a plain path never gives.
pub open spec fn is_file_name(found: Option<String>, path: Seq<char>) -> bool {
    match found {
        Some(name) => fits_as_name(name@, path),
        None => !plain_path(path),
    }
}

/// `Path::file_name`: the last component of the path, as text. What counts
/// as a component depends on the platform; on every platform it is a part
/// of the path, and for a plain path it is the text after the last `/`.
#[verifier::external_body]
fn path_file_name(path: &str) -> (r: Option<String>)
    ensures
        is_file_name(r, path@),
{
    match Path::new(path).file_name() {
        Some(name) => match name.to_str() {
            Some(text) => Some(text.to_string()),
            None => None,
        },
        None => None,
    }
}

/// `Path::extension`: the extension of the last component of the path, as
/// text: the part of the component after its last `.`, unless that is its
/// first character. What counts as a component depends on the platform; for
/// a plain path it is the text after the last `/`.
#[verifier::external_body]
fn path_extension(path: &str) -> (r: Option<String>)
    ensures
        fits_as_extension(r, path@),
{
    match Path::new(path).extension() {
        Some(extension) => match extension.to_str() {
            Some(text) => Some(text.to_string()),
            None => None,
        },
        None => None,
    }
}

/// The name of the file `path` as the platform reads paths; the empty text
/// if the path has no last component that is text.
fn file_name_of(path: &str) -> (r: String)
    ensures
        fits_as_name(r@, path@),
{
    match path_file_name(path) {
        Some(name) => name,
        None => {
            let r = String::new();
            assert(occurs_at(path@, r@, 0)) by {
                assert(path@.subrange(0, 0) =~= r@);
            }
            r
        },
    }
}

/// Whether the exclusion `exclusion` excludes the file `path` with the name
/// `file_name`: it occurs in the path, or it matches the name as a wildcard
/// pattern.
pub open spec fn excludes(exclusion: Seq<char>, path: Seq<char>, file_name: Seq<char>) -> bool {
    has_infix(path, exclusion) || glob_matches(exclusion, file_name)
}

/// Whether one of the exclusions excludes the file.
pub open spec fn excluded_by(
    path: Seq<char>,
    file_name: Seq<char>,
    exclusions: Seq<String>,
) -> bool {
    exists|k: int|
        0 <= k < exclusions.len() && excludes((#[trigger] exclusions[k])@, path, file_name)
}

/// Whether one of `exclusions` excludes the file `path` with the name
/// `file_name`.
pub fn is_excluded(path: &str, file_name: &str, exclusions: &Vec<String>) -> (r: bool)
    ensures
        r == excluded_by(path@, file_name@, exclusions@),
{
    let path_chars = chars_of(path);
    let mut k: usize = 0;
    while k < exclusions.len()
        invariant
            k <= exclusions@.len(),
            path_chars@ == path@,
            forall|j: int|
                0 <= j < k ==> !excludes((#[trigger] exclusions@[j])@, path@, file_name@),
        decreases exclusions@.len() - k,
    {
        let exclusion = exclusions[k].as_str();
        let exclusion_chars = chars_of(exclusion);
        if contains(&path_chars, &exclusion_chars) || wildcard_match(exclusion, file_name) {
            return true;
        }
        k += 1;
    }
    false
}

/// Whether `extension` is the extension of source files of the analysed
/// language.
pub open spec fn is_source_extension(extension: Option<String>) -> bool {
    match extension {
        Some(e) => e@ == "py"@,
        None => false,
    }
}

/// The findings of the unit of a file that is not parsed: the findings of
/// the line scan, unless the file is a source file of the analysed language
/// or is excluded.
pub open spec fn generic_findings(
    unit: GenericUnit,
    ruleset: &RuleSet,
    exclusions: Seq<String>,
) -> Seq<IssueView> {
    if is_line_scanned(unit.file.path@, unit.file_name@, unit.extension, exclusions) {
        scan_findings(
            ruleset.rules@,
            unit.file.path@,
            lines_of(unit.file.content@),
            ruleset.rules@.len() as int,
        )
    } else {
        Seq::empty()
    }
}

/// Whether a file is scanned by line as a file that is not parsed: it is
/// no source file of the analysed language, and it is not excluded.
pub open spec fn is_line_scanned(
    path: Seq<char>,
    file_name: Seq<char>,
    extension: Option<String>,
    exclusions: Seq<String>,
) -> bool {
    !is_source_extension(extension) && !excluded_by(path, file_name, exclusions)
}

/// Whether a file is scanned by line as a file that is not parsed.
pub fn takes_line_scan(
    path: &str,
    file_name: &str,
    extension: &Option<String>,
    exclusions: &Vec<String>,
) -> (r: bool)
    ensures
        r == is_line_scanned(path@, file_name@, *extension, exclusions@),
{
    let is_source = match extension {
        Some(e) => e.as_str().eq("py"),
        None => false,
    };
    !is_source && !is_excluded(path, file_name, exclusions)
}

/// The unit of the file `file`, with the name and the extension of its path
/// as the platform reads paths. For a plain path the name is the text after
/// the last `/`, and the extension is the text after the last `.` of the
/// name, unless that `.` is the first character of the name.
pub fn generic_unit<'a>(file: &'a WalkedFile) -> (r: GenericUnit<'a>)
    ensures
        *r.file == *file,
        fits_as_name(r.file_name@, file.path@),
        fits_as_extension(r.extension, file.path@),
{
    let file_name = file_name_of(file.path.as_str());
    let extension = path_extension(file.path.as_str());
    GenericUnit { file, file_name, extension }
}

/// The unit of the parsed file `file`, with the name of its path as the
/// platform reads paths: for a plain path, the text after the last `/`.
pub fn parsed_unit<'a>(file: &'a PythonFile) -> (r: ParsedUnit<'a>)
    ensures
        *r.file == *file,
        fits_as_name(r.file_name@, file.file_path@),
{
    let file_name = file_name_of(file.file_path.as_str());
    ParsedUnit { file, file_name }
}

/// Whether a plain path is scanned by line as a file that is not parsed:
/// the extension of its name is not that of the analysed language, and no
/// exclusion excludes it.
pub open spec fn plain_line_scanned(path: Seq<char>, exclusions: Seq<String>) -> bool {
    &&& extension_of(base_name(path)) != Some("py"@)
    &&& !excluded_by(path, base_name(path), exclusions)
}

/// Whether the file `path` is scanned by line as a file that is not parsed,
/// with the name and the extension of the path as the platform reads paths.
/// For a plain path these are `base_name(path)` and its extension, so the
/// answer is fixed by the path and the exclusions.
pub fn wants_line_scan(path: &str, exclusions: &Vec<String>) -> (r: bool)
    ensures
        exists|file_name: Seq<char>, extension: Option<String>|
            fits_as_name(file_name, path@) && fits_as_extension(extension, path@) && r
                == #[trigger] is_line_scanned(path@, file_name, extension, exclusions@),
        plain_path(path@) ==> r == plain_line_scanned(path@, exclusions@),
{
    let file_name = file_name_of(path);
    let extension = path_extension(path);
    takes_line_scan(path, file_name.as_str(), &extension, exclusions)
}

/// Runs the unit of a file that is not parsed.
pub fn scan_generic_file(unit: &GenericUnit, ruleset: &RuleSet, exclusions: &Vec<String>) -> (r:
    Vec<Issue>)
    ensures
        issue_views(r@) == generic_findings(*unit, ruleset, exclusions@),
{
    if takes_line_scan(
        unit.file.path.as_str(),
        unit.file_name.as_str(),
        &unit.extension,
        exclusions,
    ) {
        scan_file(unit.file.path.as_str(), unit.file.content.as_str(), ruleset)
    } else {
        let r: Vec<Issue> = Vec::new();
        assert(issue_views(r@) =~= Seq::<IssueView>::empty());
        r
    }
}

/// Whether the taint tracking within the function `function_node` reports
/// `issue`: it is reported at the least fixpoint of the data flow over the
/// control-flow graph of the function.
pub open spec fn function_reports(
    function_node: AstNode,
    ruleset: &RuleSet,
    file_path: Seq<char>,
    lines: Seq<Seq<char>>,
    issue: IssueView,
) -> bool {
    reported(
        cfg_of(function_node),
        ruleset,
        file_path,
        lines,
        least_fixpoint(cfg_of(function_node), ruleset.taint_sources@),
        issue,
    )
}

/// Whether the taint tracking within one of the first `n` functions `defs`
/// reports `issue`.
pub open spec fn functions_report(
    defs: Seq<AstNode>,
    ruleset: &RuleSet,
    file_path: Seq<char>,
    lines: Seq<Seq<char>>,
    issue: IssueView,
    n: int,
) -> bool {
    exists|f: int|
        0 <= f < n && function_reports(#[trigger] defs[f], ruleset, file_path, lines, issue)
}

/// Whether a pass over the parsed file `file` reports `issue`: the line
/// scan, or, if the file has a tree, the tree scan or the taint tracking
/// within one of its functions.
pub open spec fn file_reports(file: PythonFile, ruleset: &RuleSet, issue: IssueView) -> bool {
    let lines = lines_of(file.content@);
    ||| scan_findings(ruleset.rules@, file.file_path@, lines, ruleset.rules@.len() as int).contains(
        issue,
    )
    ||| match file.ast {
        Some(ast) => {
            let defs = nodes_with_kind(ast, function_kinds());
            ||| tree_findings(
                ruleset.rules@,
                preorder(ast),
                file.file_path@,
                lines,
                preorder(ast).len() as int,
            ).contains(issue)
            ||| functions_report(defs, ruleset, file.file_path@, lines, issue, defs.len() as int)
        },
        None => false,
    }
}

/// Whether the unit of a parsed file reports `issue`: the file is not
/// excluded, and a pass over it reports the issue.
pub open spec fn parsed_reports(
    unit: ParsedUnit,
    ruleset: &RuleSet,
    exclusions: Seq<String>,
    issue: IssueView,
) -> bool {
    !excluded_by(unit.file.file_path@, unit.file_name@, exclusions) && file_reports(
        *unit.file,
        ruleset,
        issue,
    )
}

/// Whether `parts` holds, for each function of `defs`, findings of the taint
/// tracking within the function: the issues that it reports, each at least
/// once.
pub open spec fn is_split_by_function(
    parts: Seq<Seq<IssueView>>,
    defs: Seq<AstNode>,
    ruleset: &RuleSet,
    file_path: Seq<char>,
    lines: Seq<Seq<char>>,
) -> bool {
    &&& parts.len() == defs.len()
    &&& forall|f: int, issue: IssueView|
        0 <= f < parts.len() ==> (#[trigger] parts[f].contains(issue) <==> function_reports(
            defs[f],
            ruleset,
            file_path,
            lines,
            issue,
        ))
}

/// Whether `found` holds findings of the taint tracking within the functions
/// `defs`, function by function in their order.
pub open spec fn is_function_wise(
    found: Seq<IssueView>,
    defs: Seq<AstNode>,
    ruleset: &RuleSet,
    file_path: Seq<char>,
    lines: Seq<Seq<char>>,
) -> bool {
    exists|parts: Seq<Seq<IssueView>>|
        #![trigger parts.flatten()]
        is_split_by_function(parts, defs, ruleset, file_path, lines) && found == parts.flatten()
}

/// Whether `found` holds the findings of the unit of a parsed file: nothing
/// if the file is excluded, and else the findings of the line scan,
/// followed, if the file has a tree, by the findings of the tree scan and by
/// findings of the taint tracking within its functions, function by
/// function in pre-order.
pub open spec fn is_unit_result(
    found: Seq<IssueView>,
    unit: ParsedUnit,
    ruleset: &RuleSet,
    exclusions: Seq<String>,
) -> bool {
    let file = *unit.file;
    let lines = lines_of(file.content@);
    let by_line = scan_findings(
        ruleset.rules@,
        file.file_path@,
        lines,
        ruleset.rules@.len() as int,
    );
    if excluded_by(file.file_path@, unit.file_name@, exclusions) {
        found == Seq::<IssueView>::empty()
    } else {
        match file.ast {
            Some(ast) => {
                let by_tree = tree_findings(
                    ruleset.rules@,
                    preorder(ast),
                    file.file_path@,
                    lines,
                    preorder(ast).len() as int,
                );
                exists|by_taint: Seq<IssueView>|
                    #![trigger by_line + by_tree + by_taint]
                    is_function_wise(
                        by_taint,
                        nodes_with_kind(ast, function_kinds()),
                        ruleset,
                        file.file_path@,
                        lines,
                    ) && found == by_line + by_tree + by_taint
            },
            None => found == by_line,
        }
    }
}

/// An element of a concatenation is an element of one of its parts.
proof fn lemma_concat_contains<T>(a: Seq<T>, b: Seq<T>, x: T)
    ensures
        (a + b).contains(x) <==> (a.contains(x) || b.contains(x)),
{
    if (a + b).contains(x) {
        let j = choose|j: int| 0 <= j < (a + b).len() && (a + b)[j] == x;
        if j < a.len() {
            assert(a[j] == x);
        } else {
            assert(b[j - a.len()] == x);
        }
    }
    if a.contains(x) {
        let j = choose|j: int| 0 <= j < a.len() && a[j] == x;
        assert((a + b)[j] == x);
    }
    if b.contains(x) {
        let j = choose|j: int| 0 <= j < b.len() && b[j] == x;
        assert((a + b)[a.len() + j] == x);
    }
}

/// Moves the issues of `more` to the end of `issues`.
fn append_issues(issues: &mut Vec<Issue>, more: Vec<Issue>)
    ensures
        issue_views(final(issues)@) == issue_views(old(issues)@) + issue_views(more@),
{
    let mut rest = more;
    issues.append(&mut rest);
    assert(issue_views(issues@) =~= issue_views(old(issues)@) + issue_views(more@));
}

/// The findings of the taint tracking within each function of `ast`.
fn analyze_functions(ast: &AstNode, ruleset: &RuleSet, file_path: &str, content: &str) -> (r: Vec<
    Issue,
>)
    ensures
        forall|issue: IssueView|
            issue_views(r@).contains(issue) <==> functions_report(
                nodes_with_kind(*ast, function_kinds()),
                ruleset,
                file_path@,
                lines_of(content@),
                issue,
                nodes_with_kind(*ast, function_kinds()).len() as int,
            ),
        is_function_wise(
            issue_views(r@),
            nodes_with_kind(*ast, function_kinds()),
            ruleset,
            file_path@,
            lines_of(content@),
        ),
{
    let defs = find_functions(ast);
    let ghost nodes = nodes_view(defs@);
    let ghost lines = lines_of(content@);
    let mut issues: Vec<Issue> = Vec::new();
    let ghost mut parts: Seq<Seq<IssueView>> = Seq::empty();
    assert(issue_views(issues@) =~= parts.flatten());
    let mut f: usize = 0;
    while f < defs.len()
        invariant
            f <= defs@.len(),
            nodes == nodes_view(defs@),
            lines == lines_of(content@),
            parts.len() == f,
            issue_views(issues@) == parts.flatten(),
            forall|g: int, issue: IssueView|
                0 <= g < parts.len() ==> (#[trigger] parts[g].contains(issue) <==> function_reports(
                    nodes[g],
                    ruleset,
                    file_path@,
                    lines,
                    issue,
                )),
            forall|issue: IssueView|
                issue_views(issues@).contains(issue) <==> functions_report(
                    nodes,
                    ruleset,
                    file_path@,
                    lines,
                    issue,
                    f as int,
                ),
        decreases defs@.len() - f,
    {
        let def = defs[f];
        assert(nodes[f as int] == *def);
        let cfg = build_cfg(def);
        let found = analyze_function(&cfg, ruleset, file_path, content);
        let ghost before = issue_views(issues@);
        let ghost added = issue_views(found@);
        let ghost earlier = parts;
        append_issues(&mut issues, found);
        proof {
            parts = earlier.push(added);
            earlier.lemma_flatten_push(added);
            assert forall|g: int, issue: IssueView| 0 <= g < parts.len() implies (
            #[trigger] parts[g].contains(issue) <==> function_reports(
                nodes[g],
                ruleset,
                file_path@,
                lines,
                issue,
            )) by {
                if g < earlier.len() {
                    assert(parts[g] == earlier[g]);
                    assert(earlier[g].contains(issue) <==> function_reports(
                        nodes[g],
                        ruleset,
                        file_path@,
                        lines,
                        issue,
                    ));
                } else {
                    assert(parts[g] == added);
                }
            }
            assert forall|issue: IssueView|
                issue_views(issues@).contains(issue) <==> functions_report(
                    nodes,
                    ruleset,
                    file_path@,
                    lines,
                    issue,
                    f + 1,
                ) by {
                lemma_concat_contains(before, added, issue);
                let here = function_reports(*def, ruleset, file_path@, lines, issue);
                assert(added.contains(issue) <==> here);
                if functions_report(nodes, ruleset, file_path@, lines, issue, f + 1) {
                    let w = choose|w: int|
                        0 <= w < f + 1 && function_reports(
                            #[trigger] nodes[w],
                            ruleset,
                            file_path@,
                            lines,
                            issue,
                        );
                    if w < f {
                        assert(functions_report(
                            nodes,
                            ruleset,
                            file_path@,
                            lines,
                            issue,
                            f as int,
                        ));
                    }
                }
                if functions_report(nodes, ruleset, file_path@, lines, issue, f as int) {
                    let w = choose|w: int|
                        0 <= w < f && function_reports(
                            #[trigger] nodes[w],
                            ruleset,
                            file_path@,
                            lines,
                            issue,
                        );
                    assert(0 <= w < f + 1);
                }
                if here {
                    assert(function_reports(nodes[f as int], ruleset, file_path@, lines, issue));
                }
            }
        }
        f += 1;
    }
    assert(nodes.len() == defs@.len());
    assert(is_split_by_function(parts, nodes, ruleset, file_path@, lines));
    issues
}

/// Runs the unit of a parsed file: the line scan, and, if the file has a
/// tree, the tree scan and the taint tracking within each of its functions.
/// An excluded file has no findings.
pub fn analyze_parsed_file(unit: &ParsedUnit, ruleset: &RuleSet, exclusions: &Vec<String>) -> (r:
    Vec<Issue>)
    ensures
        is_unit_result(issue_views(r@), *unit, ruleset, exclusions@),
        forall|issue: IssueView|
            issue_views(r@).contains(issue) <==> parsed_reports(
                *unit,
                ruleset,
                exclusions@,
                issue,
            ),
{
    let file = unit.file;
    if is_excluded(file.file_path.as_str(), unit.file_name.as_str(), exclusions) {
        let r: Vec<Issue> = Vec::new();
        assert(issue_views(r@) =~= Seq::<IssueView>::empty());
        return r;
    }
    let mut findings = scan_file(file.file_path.as_str(), file.content.as_str(), ruleset);
    let ghost by_line = issue_views(findings@);
    match &file.ast {
        Some(ast) => {
            let by_tree = scan_ast(ast, file.file_path.as_str(), file.content.as_str(), ruleset);
            let ghost tree = issue_views(by_tree@);
            append_issues(&mut findings, by_tree);
            let by_taint = analyze_functions(
                ast,
                ruleset,
                file.file_path.as_str(),
                file.content.as_str(),
            );
            let ghost taint = issue_views(by_taint@);
            append_issues(&mut findings, by_taint);
            proof {
                assert forall|issue: IssueView|
                    issue_views(findings@).contains(issue) <==> parsed_reports(
                        *unit,
                        ruleset,
                        exclusions@,
                        issue,
                    ) by {
                    lemma_concat_contains(by_line, tree, issue);
                    lemma_concat_contains(by_line + tree, taint, issue);
                }
                assert(issue_views(findings@) == by_line + tree + taint);
            }
        },
        None => {},
    }
    findings
}

/// Whether the key at position `i` occurs at an earlier position.
pub open spec fn seen_before(keys: Seq<Seq<char>>, i: int) -> bool {
    exists|j: int| 0 <= j < i && #[trigger] keys[j] == keys[i]
}

/// Those of the first `n` items whose key does not occur at an earlier
/// position, in their order.
pub open spec fn first_by_key(items: Seq<IssueView>, keys: Seq<Seq<char>>, n: int) -> Seq<
    IssueView,
>
    decreases n,
{
    if n <= 0 {
        Seq::empty()
    } else {
        let before = first_by_key(items, keys, n - 1);
        if seen_before(keys, n - 1) {
            before
        } else {
            before.push(items[n - 1])
        }
    }
}

/// The findings without repetitions: of the findings with the same
/// fingerprint the first is kept, and the kept findings stay in their order.
pub open spec fn deduplicated(items: Seq<IssueView>) -> Seq<IssueView> {
    first_by_key(items, fingerprints_of(items), items.len() as int)
}

/// Whether `fingerprint` is the fingerprint of one of `items`.
pub open spec fn has_fingerprint(items: Seq<IssueView>, fingerprint: Seq<char>) -> bool {
    exists|k: int| 0 <= k < items.len() && fingerprint_of(#[trigger] items[k]) == fingerprint
}

/// What deduplication keeps: every kept finding is one of the findings, no
/// two kept findings have the same fingerprint, and every fingerprint of a
/// finding is the fingerprint of a kept finding.
pub proof fn lemma_first_by_fingerprint(items: Seq<IssueView>, n: int)
    requires
        0 <= n <= items.len(),
    ensures
        forall|k: int|
            0 <= k < first_by_key(items, fingerprints_of(items), n).len() ==> exists|i: int|
                0 <= i < n && items[i] == #[trigger] first_by_key(
                    items,
                    fingerprints_of(items),
                    n,
                )[k],
        fingerprints_of(first_by_key(items, fingerprints_of(items), n)).no_duplicates(),
        forall|i: int|
            0 <= i < n ==> has_fingerprint(
                first_by_key(items, fingerprints_of(items), n),
                fingerprint_of(#[trigger] items[i]),
            ),
    decreases n,
{
    let keys = fingerprints_of(items);
    let kept = first_by_key(items, keys, n);
    if n > 0 {
        lemma_first_by_fingerprint(items, n - 1);
        let before = first_by_key(items, keys, n - 1);
        let last = items[n - 1];
        assert(keys[n - 1] == fingerprint_of(last));
        if seen_before(keys, n - 1) {
            let j = choose|j: int| 0 <= j < n - 1 && #[trigger] keys[j] == keys[n - 1];
            assert(keys[j] == fingerprint_of(items[j]));
            assert(has_fingerprint(before, fingerprint_of(items[j])));
            assert forall|i: int| 0 <= i < n implies has_fingerprint(
                kept,
                fingerprint_of(#[trigger] items[i]),
            ) by {
                if i < n - 1 {
                    assert(has_fingerprint(before, fingerprint_of(items[i])));
                }
            }
        } else {
            assert forall|k: int| 0 <= k < kept.len() implies exists|i: int|
                0 <= i < n && items[i] == #[trigger] kept[k] by {
                if k < before.len() {
                    let i = choose|i: int| 0 <= i < n - 1 && items[i] == before[k];
                    assert(0 <= i < n && items[i] == kept[k]);
                } else {
                    assert(items[n - 1] == kept[k]);
                }
            }
            let prints = fingerprints_of(kept);
            assert forall|a: int, b: int|
                0 <= a < prints.len() && 0 <= b < prints.len() && a != b implies prints[a]
                != prints[b] by {
                let old_prints = fingerprints_of(before);
                if a < before.len() && b < before.len() {
                    assert(old_prints[a] == prints[a]);
                    assert(old_prints[b] == prints[b]);
                } else {
                    let c = if a < before.len() {
                        a
                    } else {
                        b
                    };
                    let i = choose|i: int| 0 <= i < n - 1 && items[i] == before[c];
                    assert(keys[i] == fingerprint_of(items[i]));
                    assert(keys[i] != keys[n - 1]);
                }
            }
            assert forall|i: int| 0 <= i < n implies has_fingerprint(
                kept,
                fingerprint_of(#[trigger] items[i]),
            ) by {
                if i < n - 1 {
                    assert(has_fingerprint(before, fingerprint_of(items[i])));
                    let k = choose|k: int|
                        0 <= k < before.len() && fingerprint_of(#[trigger] before[k])
                            == fingerprint_of(items[i]);
                    assert(kept[k] == before[k]);
                } else {
                    assert(kept[before.len() as int] == last);
                }
            }
        }
    }
}

fn key_seen(keys: &Vec<String>, i: usize) -> (r: bool)
    requires
        i < keys@.len(),
    ensures
        r == seen_before(strings_view(keys@), i as int),
{
    let ghost texts = strings_view(keys@);
    let mut j: usize = 0;
    while j < i
        invariant
            j <= i < keys@.len(),
            texts == strings_view(keys@),
            forall|k: int| 0 <= k < j ==> #[trigger] texts[k] != texts[i as int],
        decreases i - j,
    {
        assert(texts[j as int] == keys@[j as int]@);
        assert(texts[i as int] == keys@[i as int]@);
        if keys[j].as_str().eq(keys[i].as_str()) {
            return true;
        }
        j += 1;
    }
    false
}

/// The issues whose key does not occur at an earlier position; `keys`
/// holds the key of each issue. An issue without a key is not kept.
pub fn retain_first(issues: &Vec<Issue>, keys: &Vec<String>) -> (r: Vec<Issue>)
    ensures
        issue_views(r@) == first_by_key(
            issue_views(issues@),
            strings_view(keys@),
            if issues@.len() <= keys@.len() {
                issues@.len() as int
            } else {
                keys@.len() as int
            },
        ),
{
    let n = if issues.len() <= keys.len() {
        issues.len()
    } else {
        keys.len()
    };
    let ghost items = issue_views(issues@);
    let ghost texts = strings_view(keys@);
    let mut kept: Vec<Issue> = Vec::new();
    assert(issue_views(kept@) =~= Seq::<IssueView>::empty());
    let mut i: usize = 0;
    while i < n
        invariant
            i <= n,
            n <= issues@.len(),
            n <= keys@.len(),
            items == issue_views(issues@),
            texts == strings_view(keys@),
            issue_views(kept@) == first_by_key(items, texts, i as int),
        decreases n - i,
    {
        if !key_seen(keys, i) {
            let issue = issues[i].clone();
            let ghost before = issue_views(kept@);
            kept.push(issue);
            assert(items[i as int] == issues@[i as int]@);
            assert(issue_views(kept@) =~= before.push(items[i as int]));
        }
        i += 1;
    }
    kept
}

/// The fingerprint of each issue, in order.
pub fn fingerprints(issues: &Vec<Issue>) -> (r: Vec<String>)
    ensures
        strings_view(r@) == fingerprints_of(issue_views(issues@)),
{
    let mut out: Vec<String> = Vec::new();
    let ghost items = issue_views(issues@);
    let mut i: usize = 0;
    while i < issues.len()
        invariant
            i <= issues@.len(),
            items == issue_views(issues@),
            strings_view(out@) == fingerprints_of(items).take(i as int),
        decreases issues@.len() - i,
    {
        let print = issues[i].get_fingerprint();
        let ghost before = strings_view(out@);
        out.push(print);
        assert(items[i as int] == issues@[i as int]@);
        assert(strings_view(out@) =~= before.push(fingerprint_of(items[i as int])));
        assert(fingerprints_of(items).take(i + 1) =~= fingerprints_of(items).take(i as int).push(
            fingerprint_of(items[i as int]),
        ));
        i += 1;
    }
    assert(fingerprints_of(items).take(i as int) =~= fingerprints_of(items));
    out
}

/// Removes repetitions: of the issues with the same fingerprint the first
/// is kept. No two of the issues that are returned have the same
/// fingerprint.
pub fn deduplicate(issues: Vec<Issue>) -> (r: Vec<Issue>)
    ensures
        issue_views(r@) == deduplicated(issue_views(issues@)),
        fingerprints_of(issue_views(r@)).no_duplicates(),
{
    let keys = fingerprints(&issues);
    assert(fingerprints_of(issue_views(issues@)).len() == issues@.len());
    proof {
        lemma_first_by_fingerprint(issue_views(issues@), issues@.len() as int);
    }
    retain_first(&issues, &keys)
}

/// The findings of the project-wide taint tracking over the parsed files
/// `files`.
pub open spec fn project_program_findings(ruleset: &RuleSet, files: Seq<PythonFile>) -> Seq<
    IssueView,
> {
    let table = function_table(files, files.len() as int);
    program_findings(ruleset, table, content_table(files, files.len() as int), table.len() as int)
}

/// The last step of a scan: adds the findings of the project-wide taint
/// tracking to the findings of the units, and removes repetitions.
pub fn finish_analysis(context: &AnalysisContext, unit_findings: Vec<Issue>) -> (r: Vec<Issue>)
    ensures
        issue_views(r@) == deduplicated(
            issue_views(unit_findings@) + project_program_findings(
                &context.ruleset,
                context.py_files@,
            ),
        ),
        fingerprints_of(issue_views(r@)).no_duplicates(),
{
    let mut issues = unit_findings;
    let call_graph = build_call_graph(context.py_files);
    let by_program = analyze_program_for_taint(&call_graph, &context.ruleset);
    append_issues(&mut issues, by_program);
    deduplicate(issues)
}

/// Whether one of the first `n` units of files that are not parsed has the
/// finding `issue`.
pub open spec fn generic_reports(
    units: Seq<GenericUnit>,
    ruleset: &RuleSet,
    exclusions: Seq<String>,
    issue: IssueView,
    n: int,
) -> bool {
    exists|u: int|
        0 <= u < n && generic_findings(#[trigger] units[u], ruleset, exclusions).contains(issue)
}

/// Whether one of the first `n` units of parsed files reports `issue`.
pub open spec fn units_report(
    units: Seq<ParsedUnit>,
    ruleset: &RuleSet,
    exclusions: Seq<String>,
    issue: IssueView,
    n: int,
) -> bool {
    exists|u: int| 0 <= u < n && parsed_reports(#[trigger] units[u], ruleset, exclusions, issue)
}

/// Whether a scan reports `issue`: a unit reports it, or the project-wide
/// taint tracking does.
pub open spec fn project_reports(
    ruleset: &RuleSet,
    exclusions: Seq<String>,
    files: Seq<PythonFile>,
    generic: Seq<GenericUnit>,
    parsed: Seq<ParsedUnit>,
    issue: IssueView,
) -> bool {
    ||| generic_reports(generic, ruleset, exclusions, issue, generic.len() as int)
    ||| units_report(parsed, ruleset, exclusions, issue, parsed.len() as int)
    ||| project_program_findings(ruleset, files).contains(issue)
}

/// Whether `found` is a result of the scan: every finding is reported by the
/// scan, no two findings have the same fingerprint, and every issue that
/// the scan reports has the fingerprint of a finding.
pub open spec fn is_scan_result(
    found: Seq<IssueView>,
    ruleset: &RuleSet,
    exclusions: Seq<String>,
    files: Seq<PythonFile>,
    generic: Seq<GenericUnit>,
    parsed: Seq<ParsedUnit>,
) -> bool {
    &&& fingerprints_of(found).no_duplicates()
    &&& forall|issue: IssueView| #[trigger]
        found.contains(issue) ==> project_reports(
            ruleset,
            exclusions,
            files,
            generic,
            parsed,
            issue,
        )
    &&& forall|issue: IssueView| #[trigger]
        project_reports(ruleset, exclusions, files, generic, parsed, issue) ==> has_fingerprint(
            found,
            fingerprint_of(issue),
        )
}

/// The findings of the first `n` units of files that are not parsed, unit by
/// unit.
pub open spec fn generic_part(
    units: Seq<GenericUnit>,
    ruleset: &RuleSet,
    exclusions: Seq<String>,
    n: int,
) -> Seq<IssueView>
    decreases n,
{
    if n <= 0 {
        Seq::empty()
    } else {
        generic_part(units, ruleset, exclusions, n - 1) + generic_findings(
            units[n - 1],
            ruleset,
            exclusions,
        )
    }
}

/// Whether `parts` holds, for each unit of `units`, findings of the unit.
pub open spec fn is_split_by_unit(
    parts: Seq<Seq<IssueView>>,
    units: Seq<ParsedUnit>,
    ruleset: &RuleSet,
    exclusions: Seq<String>,
) -> bool {
    &&& parts.len() == units.len()
    &&& forall|u: int|
        0 <= u < parts.len() ==> is_unit_result(#[trigger] parts[u], units[u], ruleset, exclusions)
}

/// Whether `found` holds the findings of all units, collected one unit
/// after the other: first the units of the files that are not parsed, then
/// the units of the parsed files.
pub open spec fn is_collected(
    found: Seq<IssueView>,
    ruleset: &RuleSet,
    exclusions: Seq<String>,
    generic: Seq<GenericUnit>,
    parsed: Seq<ParsedUnit>,
) -> bool {
    exists|parts: Seq<Seq<IssueView>>|
        #![trigger parts.flatten()]
        is_split_by_unit(parts, parsed, ruleset, exclusions) && found == generic_part(
            generic,
            ruleset,
            exclusions,
            generic.len() as int,
        ) + parts.flatten()
}

/// Runs all units one after the other, then the project-wide taint
/// tracking, and removes repetitions.
///
/// The findings are those that the units and the project-wide taint
/// tracking found, in that order, without the later ones of findings with
/// the same fingerprint.
pub fn analyze_units(
    context: &AnalysisContext,
    generic: &Vec<GenericUnit>,
    parsed: &Vec<ParsedUnit>,
) -> (r: Vec<Issue>)
    ensures
        is_scan_result(
            issue_views(r@),
            &context.ruleset,
            context.exclusions@,
            context.py_files@,
            generic@,
            parsed@,
        ),
        exists|collected: Seq<IssueView>|
            #![trigger is_collected(collected, &context.ruleset, context.exclusions@, generic@, parsed@)]
            is_collected(collected, &context.ruleset, context.exclusions@, generic@, parsed@)
                && issue_views(r@) == deduplicated(
                collected + project_program_findings(&context.ruleset, context.py_files@),
            ),
{
    let ruleset = &context.ruleset;
    let exclusions = &context.exclusions;
    let mut issues: Vec<Issue> = Vec::new();
    assert(issue_views(issues@) =~= Seq::<IssueView>::empty());
    let mut g: usize = 0;
    while g < generic.len()
        invariant
            g <= generic@.len(),
            issue_views(issues@) == generic_part(generic@, ruleset, exclusions@, g as int),
            forall|issue: IssueView|
                issue_views(issues@).contains(issue) <==> generic_reports(
                    generic@,
                    ruleset,
                    exclusions@,
                    issue,
                    g as int,
                ),
        decreases generic@.len() - g,
    {
        let found = scan_generic_file(&generic[g], ruleset, exclusions);
        let ghost before = issue_views(issues@);
        let ghost added = issue_views(found@);
        append_issues(&mut issues, found);
        proof {
            assert forall|issue: IssueView|
                issue_views(issues@).contains(issue) <==> generic_reports(
                    generic@,
                    ruleset,
                    exclusions@,
                    issue,
                    g + 1,
                ) by {
                lemma_concat_contains(before, added, issue);
                if generic_reports(generic@, ruleset, exclusions@, issue, g + 1) {
                    let u = choose|u: int|
                        0 <= u < g + 1 && generic_findings(
                            #[trigger] generic@[u],
                            ruleset,
                            exclusions@,
                        ).contains(issue);
                    if u < g {
                        assert(generic_reports(generic@, ruleset, exclusions@, issue, g as int));
                    }
                }
                if generic_reports(generic@, ruleset, exclusions@, issue, g as int) {
                    let u = choose|u: int|
                        0 <= u < g && generic_findings(
                            #[trigger] generic@[u],
                            ruleset,
                            exclusions@,
                        ).contains(issue);
                    assert(0 <= u < g + 1);
                }
                if added.contains(issue) {
                    assert(generic_findings(generic@[g as int], ruleset, exclusions@).contains(
                        issue,
                    ));
                }
            }
        }
        g += 1;
    }
    let ghost by_generic = issue_views(issues@);
    assert forall|issue: IssueView|
        by_generic.contains(issue) <==> generic_reports(
            generic@,
            ruleset,
            exclusions@,
            issue,
            generic@.len() as int,
        ) by {}
    let ghost mut parts: Seq<Seq<IssueView>> = Seq::empty();
    assert(issue_views(issues@) =~= by_generic + parts.flatten());
    let mut p: usize = 0;
    while p < parsed.len()
        invariant
            p <= parsed@.len(),
            parts.len() == p,
            issue_views(issues@) == by_generic + parts.flatten(),
            forall|u: int|
                0 <= u < parts.len() ==> is_unit_result(
                    #[trigger] parts[u],
                    parsed@[u],
                    ruleset,
                    exclusions@,
                ),
            forall|issue: IssueView|
                issue_views(issues@).contains(issue) <==> (by_generic.contains(issue)
                    || units_report(parsed@, ruleset, exclusions@, issue, p as int)),
        decreases parsed@.len() - p,
    {
        let ghost before = issue_views(issues@);
        let ghost q = p as int;
        assert forall|issue: IssueView|
            before.contains(issue) <==> (by_generic.contains(issue) || units_report(
                parsed@,
                ruleset,
                exclusions@,
                issue,
                q,
            )) by {}
        let found = analyze_parsed_file(&parsed[p], ruleset, exclusions);
        let ghost added = issue_views(found@);
        let ghost earlier = parts;
        append_issues(&mut issues, found);
        p += 1;
        proof {
            parts = earlier.push(added);
            earlier.lemma_flatten_push(added);
            assert(issue_views(issues@) =~= by_generic + parts.flatten());
            assert forall|u: int| 0 <= u < parts.len() implies is_unit_result(
                #[trigger] parts[u],
                parsed@[u],
                ruleset,
                exclusions@,
            ) by {
                if u < earlier.len() {
                    assert(parts[u] == earlier[u]);
                    assert(is_unit_result(earlier[u], parsed@[u], ruleset, exclusions@));
                } else {
                    assert(parts[u] == added);
                }
            }
            assert forall|issue: IssueView|
                issue_views(issues@).contains(issue) <==> (by_generic.contains(issue)
                    || units_report(parsed@, ruleset, exclusions@, issue, p as int)) by {
                lemma_concat_contains(before, added, issue);
                assert(before.contains(issue) <==> (by_generic.contains(issue) || units_report(
                    parsed@,
                    ruleset,
                    exclusions@,
                    issue,
                    q,
                )));
                assert(added.contains(issue) <==> parsed_reports(
                    parsed@[q],
                    ruleset,
                    exclusions@,
                    issue,
                ));
                if units_report(parsed@, ruleset, exclusions@, issue, q + 1) {
                    let u = choose|u: int|
                        0 <= u < q + 1 && parsed_reports(
                            #[trigger] parsed@[u],
                            ruleset,
                            exclusions@,
                            issue,
                        );
                    if u < q {
                        assert(units_report(parsed@, ruleset, exclusions@, issue, q));
                    }
                }
                if units_report(parsed@, ruleset, exclusions@, issue, q) {
                    let u = choose|u: int|
                        0 <= u < q && parsed_reports(
                            #[trigger] parsed@[u],
                            ruleset,
                            exclusions@,
                            issue,
                        );
                    assert(0 <= u < q + 1);
                }
                if added.contains(issue) {
                    assert(parsed_reports(parsed@[q], ruleset, exclusions@, issue));
                    assert(units_report(parsed@, ruleset, exclusions@, issue, q + 1));
                }
            }
        }
    }
    let ghost by_units = issue_views(issues@);
    assert forall|issue: IssueView|
        by_units.contains(issue) <==> (generic_reports(
            generic@,
            ruleset,
            exclusions@,
            issue,
            generic@.len() as int,
        ) || units_report(parsed@, ruleset, exclusions@, issue, parsed@.len() as int)) by {
        assert(by_units.contains(issue) <==> (by_generic.contains(issue) || units_report(
            parsed@,
            ruleset,
            exclusions@,
            issue,
            parsed@.len() as int,
        )));
    }
    let r = finish_analysis(context, issues);
    proof {
        assert(is_split_by_unit(parts, parsed@, ruleset, exclusions@));
        assert(is_collected(by_units, ruleset, exclusions@, generic@, parsed@));
        let by_program = project_program_findings(ruleset, context.py_files@);
        let all = by_units + by_program;
        let found = issue_views(r@);
        lemma_first_by_fingerprint(all, all.len() as int);
        assert forall|issue: IssueView|
            all.contains(issue) <==> project_reports(
                ruleset,
                exclusions@,
                context.py_files@,
                generic@,
                parsed@,
                issue,
            ) by {
            lemma_concat_contains(by_units, by_program, issue);
        }
        assert forall|issue: IssueView| #[trigger] found.contains(issue) implies project_reports(
            ruleset,
            exclusions@,
            context.py_files@,
            generic@,
            parsed@,
            issue,
        ) by {
            let k = choose|k: int| 0 <= k < found.len() && found[k] == issue;
            let i = choose|i: int| 0 <= i < all.len() && all[i] == found[k];
            assert(all.contains(issue));
        }
        assert forall|issue: IssueView| #[trigger]
            project_reports(
                ruleset,
                exclusions@,
                context.py_files@,
                generic@,
                parsed@,
                issue,
            ) implies has_fingerprint(found, fingerprint_of(issue)) by {
            assert(all.contains(issue));
            let i = choose|i: int| 0 <= i < all.len() && all[i] == issue;
            assert(has_fingerprint(found, fingerprint_of(all[i])));
        }
    }
    r
}

/// Whether `units` are the files `walked`, each with a name and an
/// extension that fit its path.
pub open spec fn resolves_walked(units: Seq<GenericUnit>, walked: Seq<WalkedFile>) -> bool {
    &&& units.len() == walked.len()
    &&& forall|i: int|
        0 <= i < units.len() ==> {
            &&& *(#[trigger] units[i]).file == walked[i]
            &&& fits_as_name(units[i].file_name@, walked[i].path@)
            &&& fits_as_extension(units[i].extension, walked[i].path@)
        }
}

/// Whether `units` are the parsed files `files`, each with a name that fits
/// its path.
pub open spec fn resolves_parsed(units: Seq<ParsedUnit>, files: Seq<PythonFile>) -> bool {
    &&& units.len() == files.len()
    &&& forall|i: int|
        0 <= i < units.len() ==> {
            &&& *(#[trigger] units[i]).file == files[i]
            &&& fits_as_name(units[i].file_name@, files[i].file_path@)
        }
}

/// Whether the paths of the files `walked` and of the parsed files `files`
/// are all plain.
pub open spec fn all_plain(walked: Seq<WalkedFile>, files: Seq<PythonFile>) -> bool {
    &&& forall|i: int| 0 <= i < walked.len() ==> plain_path((#[trigger] walked[i]).path@)
    &&& forall|i: int| 0 <= i < files.len() ==> plain_path((#[trigger] files[i]).file_path@)
}

/// Whether `found` is a result of the scan of the project: of the scan of
/// units that are the files `walked` and the parsed files `files`, each with
/// a name and an extension that fit its path.
pub open spec fn is_project_scan(
    found: Seq<IssueView>,
    ruleset: &RuleSet,
    exclusions: Seq<String>,
    files: Seq<PythonFile>,
    walked: Seq<WalkedFile>,
) -> bool {
    exists|generic: Seq<GenericUnit>, parsed: Seq<ParsedUnit>|
        #![trigger resolves_walked(generic, walked), resolves_parsed(parsed, files)]
        resolves_walked(generic, walked) && resolves_parsed(parsed, files) && is_scan_result(
            found,
            ruleset,
            exclusions,
            files,
            generic,
            parsed,
        )
}

/// Scans a project: the files `walked` that were found under its root, and
/// the parsed files of the context.
///
/// The name and the extension of each file are taken from its path as the
/// platform reads paths; a plain path fixes both. With them, the findings
/// are a result of the scan of the units of all files; no two findings have
/// the same fingerprint.
pub fn run_analysis<'a>(context: &AnalysisContext<'a>, walked: &'a Vec<WalkedFile>) -> (r: Vec<
    Issue,
>)
    ensures
        fingerprints_of(issue_views(r@)).no_duplicates(),
        is_project_scan(
            issue_views(r@),
            &context.ruleset,
            context.exclusions@,
            context.py_files@,
            walked@,
        ),
{
    let mut generic: Vec<GenericUnit<'a>> = Vec::new();
    let mut i: usize = 0;
    while i < walked.len()
        invariant
            i <= walked@.len(),
            generic@.len() == i,
            forall|j: int|
                0 <= j < i ==> {
                    &&& *(#[trigger] generic@[j]).file == walked@[j]
                    &&& fits_as_name(generic@[j].file_name@, walked@[j].path@)
                    &&& fits_as_extension(generic@[j].extension, walked@[j].path@)
                },
        decreases walked@.len() - i,
    {
        generic.push(generic_unit(&walked[i]));
        i += 1;
    }
    let mut parsed: Vec<ParsedUnit<'a>> = Vec::new();
    let mut k: usize = 0;
    while k < context.py_files.len()
        invariant
            k <= context.py_files@.len(),
            parsed@.len() == k,
            forall|j: int|
                0 <= j < k ==> {
                    &&& *(#[trigger] parsed@[j]).file == context.py_files@[j]
                    &&& fits_as_name(parsed@[j].file_name@, context.py_files@[j].file_path@)
                },
        decreases context.py_files@.len() - k,
    {
        parsed.push(parsed_unit(&context.py_files[k]));
        k += 1;
    }
    let r = analyze_units(context, &generic, &parsed);
    assert(resolves_walked(generic@, walked@) && resolves_parsed(parsed@, context.py_files@));
    r
}

/// An exclusion more excludes at least the files that were excluded.
proof fn lemma_excluded_stays(
    path: Seq<char>,
    file_name: Seq<char>,
    exclusions: Seq<String>,
    added: String,
)
    requires
        excluded_by(path, file_name, exclusions),
    ensures
        excluded_by(path, file_name, exclusions.push(added)),
{
    let k = choose|k: int|
        0 <= k < exclusions.len() && excludes((#[trigger] exclusions[k])@, path, file_name);
    assert(exclusions.push(added)[k] == exclusions[k]);
}

/// Whatever a scan reports with an exclusion more, it reports without it.
proof fn lemma_reports_with_fewer_exclusions(
    ruleset: &RuleSet,
    exclusions: Seq<String>,
    added: String,
    files: Seq<PythonFile>,
    generic: Seq<GenericUnit>,
    parsed: Seq<ParsedUnit>,
    issue: IssueView,
)
    requires
        project_reports(ruleset, exclusions.push(added), files, generic, parsed, issue),
    ensures
        project_reports(ruleset, exclusions, files, generic, parsed, issue),
{
    let more = exclusions.push(added);
    if generic_reports(generic, ruleset, more, issue, generic.len() as int) {
        let u = choose|u: int|
            0 <= u < generic.len() && generic_findings(
                #[trigger] generic[u],
                ruleset,
                more,
            ).contains(issue);
        if excluded_by(generic[u].file.path@, generic[u].file_name@, exclusions) {
            lemma_excluded_stays(generic[u].file.path@, generic[u].file_name@, exclusions, added);
        }
        assert(generic_findings(generic[u], ruleset, exclusions).contains(issue));
    } else if units_report(parsed, ruleset, more, issue, parsed.len() as int) {
        let u = choose|u: int|
            0 <= u < parsed.len() && parsed_reports(#[trigger] parsed[u], ruleset, more, issue);
        if excluded_by(parsed[u].file.file_path@, parsed[u].file_name@, exclusions) {
            lemma_excluded_stays(
                parsed[u].file.file_path@,
                parsed[u].file_name@,
                exclusions,
                added,
            );
        }
        assert(parsed_reports(parsed[u], ruleset, exclusions, issue));
    }
}

/// The fingerprints of the findings of a scan are among those of every scan
/// that reports at least as much.
proof fn lemma_fingerprints_within(
    fewer: Seq<IssueView>,
    more: Seq<IssueView>,
)
    requires
        forall|k: int|
            0 <= k < fewer.len() ==> has_fingerprint(more, fingerprint_of(#[trigger] fewer[k])),
    ensures
        fingerprints_of(fewer).to_set().subset_of(fingerprints_of(more).to_set()),
{
    assert forall|print: Seq<char>| fingerprints_of(fewer).to_set().contains(
        print,
    ) implies fingerprints_of(more).to_set().contains(print) by {
        let k = choose|k: int|
            0 <= k < fingerprints_of(fewer).len() && fingerprints_of(fewer)[k] == print;
        assert(has_fingerprint(more, fingerprint_of(fewer[k])));
        let j = choose|j: int|
            0 <= j < more.len() && fingerprint_of(#[trigger] more[j]) == fingerprint_of(fewer[k]);
        assert(fingerprints_of(more)[j] == print);
    }
}

/// Adding an exclusion never increases the number of findings: a result of
/// the scan with the exclusion `added` holds at most as many findings as a
/// result of the scan without it.
pub proof fn lemma_exclusion_monotone(
    ruleset: &RuleSet,
    exclusions: Seq<String>,
    added: String,
    files: Seq<PythonFile>,
    generic: Seq<GenericUnit>,
    parsed: Seq<ParsedUnit>,
    without: Seq<IssueView>,
    with: Seq<IssueView>,
)
    requires
        is_scan_result(without, ruleset, exclusions, files, generic, parsed),
        is_scan_result(with, ruleset, exclusions.push(added), files, generic, parsed),
    ensures
        with.len() <= without.len(),
{
    assert forall|k: int| 0 <= k < with.len() implies has_fingerprint(
        without,
        fingerprint_of(#[trigger] with[k]),
    ) by {
        assert(with.contains(with[k]));
        lemma_reports_with_fewer_exclusions(
            ruleset,
            exclusions,
            added,
            files,
            generic,
            parsed,
            with[k],
        );
    }
    lemma_fingerprints_within(with, without);
    fingerprints_of(with).unique_seq_to_set();
    fingerprints_of(without).unique_seq_to_set();
    seq_to_set_is_finite(fingerprints_of(without));
    lemma_len_subset(fingerprints_of(with).to_set(), fingerprints_of(without).to_set());
}

/// The fingerprints of the findings are determined by what is scanned: two
/// results of the same scan hold the same fingerprints, each once, in
/// whatever order the units were run.
pub proof fn lemma_fingerprints_determined(
    ruleset: &RuleSet,
    exclusions: Seq<String>,
    files: Seq<PythonFile>,
    generic: Seq<GenericUnit>,
    parsed: Seq<ParsedUnit>,
    first: Seq<IssueView>,
    second: Seq<IssueView>,
)
    requires
        is_scan_result(first, ruleset, exclusions, files, generic, parsed),
        is_scan_result(second, ruleset, exclusions, files, generic, parsed),
    ensures
        fingerprints_of(first).to_multiset() == fingerprints_of(second).to_multiset(),
        first.len() == second.len(),
{
    let a = fingerprints_of(first);
    let b = fingerprints_of(second);
    assert forall|k: int| 0 <= k < first.len() implies has_fingerprint(
        second,
        fingerprint_of(#[trigger] first[k]),
    ) by {
        assert(first.contains(first[k]));
    }
    assert forall|k: int| 0 <= k < second.len() implies has_fingerprint(
        first,
        fingerprint_of(#[trigger] second[k]),
    ) by {
        assert(second.contains(second[k]));
    }
    lemma_fingerprints_within(first, second);
    lemma_fingerprints_within(second, first);
    assert(a.to_set() =~= b.to_set());
    a.lemma_multiset_has_no_duplicates();
    b.lemma_multiset_has_no_duplicates();
    a.to_multiset_ensures();
    b.to_multiset_ensures();
    assert forall|print: Seq<char>| a.to_multiset().count(print) == b.to_multiset().count(
        print,
    ) by {
        assert(a.contains(print) == a.to_set().contains(print));
        assert(b.contains(print) == b.to_set().contains(print));
        if a.contains(print) {
            assert(a.to_multiset().count(print) > 0);
            assert(a.to_multiset().contains(print));
            assert(b.to_multiset().count(print) > 0);
            assert(b.to_multiset().contains(print));
        }
    }
    assert(a.to_multiset() =~= b.to_multiset());
    a.unique_seq_to_set();
    b.unique_seq_to_set();
}

/// What units of files with plain paths report, any other units of the
/// same files report too.
proof fn lemma_plain_units_report_alike(
    ruleset: &RuleSet,
    exclusions: Seq<String>,
    files: Seq<PythonFile>,
    walked: Seq<WalkedFile>,
    generic: Seq<GenericUnit>,
    parsed: Seq<ParsedUnit>,
    generic_other: Seq<GenericUnit>,
    parsed_other: Seq<ParsedUnit>,
    issue: IssueView,
)
    requires
        all_plain(walked, files),
        resolves_walked(generic, walked),
        resolves_parsed(parsed, files),
        resolves_walked(generic_other, walked),
        resolves_parsed(parsed_other, files),
        project_reports(ruleset, exclusions, files, generic, parsed, issue),
    ensures
        project_reports(ruleset, exclusions, files, generic_other, parsed_other, issue),
{
    if generic_reports(generic, ruleset, exclusions, issue, generic.len() as int) {
        let u = choose|u: int|
            0 <= u < generic.len() && generic_findings(
                #[trigger] generic[u],
                ruleset,
                exclusions,
            ).contains(issue);
        let one = generic[u];
        let other = generic_other[u];
        assert(plain_path(walked[u].path@));
        assert(*one.file == walked[u] && *other.file == walked[u]);
        assert(one.file_name@ == other.file_name@);
        assert(is_source_extension(one.extension) == is_source_extension(other.extension));
        assert(generic_findings(other, ruleset, exclusions).contains(issue));
    } else if units_report(parsed, ruleset, exclusions, issue, parsed.len() as int) {
        let u = choose|u: int|
            0 <= u < parsed.len() && parsed_reports(
                #[trigger] parsed[u],
                ruleset,
                exclusions,
                issue,
            );
        let one = parsed[u];
        let other = parsed_other[u];
        assert(plain_path(files[u].file_path@));
        assert(*one.file == files[u] && *other.file == files[u]);
        assert(one.file_name@ == other.file_name@);
        assert(parsed_reports(other, ruleset, exclusions, issue));
    }
}

/// The files fix the scan where their paths are plain: a result of the scan
/// of units of the files is a result of the scan of any other units of the
/// same files.
pub proof fn lemma_plain_paths_fix_the_units(
    found: Seq<IssueView>,
    ruleset: &RuleSet,
    exclusions: Seq<String>,
    files: Seq<PythonFile>,
    walked: Seq<WalkedFile>,
    generic: Seq<GenericUnit>,
    parsed: Seq<ParsedUnit>,
    generic_other: Seq<GenericUnit>,
    parsed_other: Seq<ParsedUnit>,
)
    requires
        all_plain(walked, files),
        resolves_walked(generic, walked),
        resolves_parsed(parsed, files),
        resolves_walked(generic_other, walked),
        resolves_parsed(parsed_other, files),
        is_scan_result(found, ruleset, exclusions, files, generic, parsed),
    ensures
        is_scan_result(found, ruleset, exclusions, files, generic_other, parsed_other),
{
    assert forall|issue: IssueView|
        project_reports(ruleset, exclusions, files, generic, parsed, issue) == project_reports(
            ruleset,
            exclusions,
            files,
            generic_other,
            parsed_other,
            issue,
        ) by {
        if project_reports(ruleset, exclusions, files, generic, parsed, issue) {
            lemma_plain_units_report_alike(
                ruleset,
                exclusions,
                files,
                walked,
                generic,
                parsed,
                generic_other,
                parsed_other,
                issue,
            );
        }
        if project_reports(ruleset, exclusions, files, generic_other, parsed_other, issue) {
            lemma_plain_units_report_alike(
                ruleset,
                exclusions,
                files,
                walked,
                generic_other,
                parsed_other,
                generic,
                parsed,
                issue,
            );
        }
    }
}

/// A scan of files with plain paths is deterministic: two results of the
/// scan of the same project hold the same fingerprints, each once.
pub proof fn lemma_project_scan_determined(
    ruleset: &RuleSet,
    exclusions: Seq<String>,
    files: Seq<PythonFile>,
    walked: Seq<WalkedFile>,
    first: Seq<IssueView>,
    second: Seq<IssueView>,
)
    requires
        all_plain(walked, files),
        is_project_scan(first, ruleset, exclusions, files, walked),
        is_project_scan(second, ruleset, exclusions, files, walked),
    ensures
        fingerprints_of(first).to_multiset() == fingerprints_of(second).to_multiset(),
        first.len() == second.len(),
{
    let (generic, parsed) = choose|generic: Seq<GenericUnit>, parsed: Seq<ParsedUnit>|
        #![trigger resolves_walked(generic, walked), resolves_parsed(parsed, files)]
        resolves_walked(generic, walked) && resolves_parsed(parsed, files) && is_scan_result(
            first,
            ruleset,
            exclusions,
            files,
            generic,
            parsed,
        );
    let (generic_other, parsed_other) = choose|generic: Seq<GenericUnit>, parsed: Seq<ParsedUnit>|
        #![trigger resolves_walked(generic, walked), resolves_parsed(parsed, files)]
        resolves_walked(generic, walked) && resolves_parsed(parsed, files) && is_scan_result(
            second,
            ruleset,
            exclusions,
            files,
            generic,
            parsed,
        );
    lemma_plain_paths_fix_the_units(
        second,
        ruleset,
        exclusions,
        files,
        walked,
        generic_other,
        parsed_other,
        generic,
        parsed,
    );
    lemma_fingerprints_determined(ruleset, exclusions, files, generic, parsed, first, second);
}

/// Adding an exclusion to a scan of files with plain paths never increases
/// the number of findings.
pub proof fn lemma_project_scan_exclusion_monotone(
    ruleset: &RuleSet,
    exclusions: Seq<String>,
    added: String,
    files: Seq<PythonFile>,
    walked: Seq<WalkedFile>,
    without: Seq<IssueView>,
    with: Seq<IssueView>,
)
    requires
        all_plain(walked, files),
        is_project_scan(without, ruleset, exclusions, files, walked),
        is_project_scan(with, ruleset, exclusions.push(added), files, walked),
    ensures
        with.len() <= without.len(),
{
    let (generic, parsed) = choose|generic: Seq<GenericUnit>, parsed: Seq<ParsedUnit>|
        #![trigger resolves_walked(generic, walked), resolves_parsed(parsed, files)]
        resolves_walked(generic, walked) && resolves_parsed(parsed, files) && is_scan_result(
            without,
            ruleset,
            exclusions,
            files,
            generic,
            parsed,
        );
    let (generic_other, parsed_other) = choose|generic: Seq<GenericUnit>, parsed: Seq<ParsedUnit>|
        #![trigger resolves_walked(generic, walked), resolves_parsed(parsed, files)]
        resolves_walked(generic, walked) && resolves_parsed(parsed, files) && is_scan_result(
            with,
            ruleset,
            exclusions.push(added),
            files,
            generic,
            parsed,
        );
    lemma_plain_paths_fix_the_units(
        with,
        ruleset,
        exclusions.push(added),
        files,
        walked,
        generic_other,
        parsed_other,
        generic,
        parsed,
    );
    lemma_exclusion_monotone(ruleset, exclusions, added, files, generic, parsed, without, with);
}

/// The units of a scan may be run in any order: what is a result of the
/// scan of the units in one order is a result of their scan in any other.
pub proof fn lemma_order_of_units_irrelevant(
    found: Seq<IssueView>,
    ruleset: &RuleSet,
    exclusions: Seq<String>,
    files: Seq<PythonFile>,
    generic: Seq<GenericUnit>,
    parsed: Seq<ParsedUnit>,
    generic_reordered: Seq<GenericUnit>,
    parsed_reordered: Seq<ParsedUnit>,
)
    requires
        generic.to_multiset() == generic_reordered.to_multiset(),
        parsed.to_multiset() == parsed_reordered.to_multiset(),
        is_scan_result(found, ruleset, exclusions, files, generic, parsed),
    ensures
        is_scan_result(found, ruleset, exclusions, files, generic_reordered, parsed_reordered),
{
    generic.to_multiset_ensures();
    generic_reordered.to_multiset_ensures();
    parsed.to_multiset_ensures();
    parsed_reordered.to_multiset_ensures();
    assert forall|u: GenericUnit| generic.contains(u) == generic_reordered.contains(u) by {
        assert(generic.contains(u) <==> generic.to_multiset().count(u) > 0);
        assert(generic_reordered.contains(u) <==> generic_reordered.to_multiset().count(u) > 0);
    }
    assert forall|u: ParsedUnit| parsed.contains(u) == parsed_reordered.contains(u) by {
        assert(parsed.contains(u) <==> parsed.to_multiset().count(u) > 0);
        assert(parsed_reordered.contains(u) <==> parsed_reordered.to_multiset().count(u) > 0);
    }
    assert forall|issue: IssueView|
        project_reports(ruleset, exclusions, files, generic, parsed, issue) == project_reports(
            ruleset,
            exclusions,
            files,
            generic_reordered,
            parsed_reordered,
            issue,
        ) by {
        lemma_same_units_report(
            ruleset,
            exclusions,
            generic,
            parsed,
            generic_reordered,
            parsed_reordered,
            issue,
        );
        lemma_same_units_report(
            ruleset,
            exclusions,
            generic_reordered,
            parsed_reordered,
            generic,
            parsed,
            issue,
        );
    }
}

proof fn lemma_same_units_report(
    ruleset: &RuleSet,
    exclusions: Seq<String>,
    generic: Seq<GenericUnit>,
    parsed: Seq<ParsedUnit>,
    generic_other: Seq<GenericUnit>,
    parsed_other: Seq<ParsedUnit>,
    issue: IssueView,
)
    requires
        forall|u: GenericUnit| generic.contains(u) ==> generic_other.contains(u),
        forall|u: ParsedUnit| parsed.contains(u) ==> parsed_other.contains(u),
    ensures
        generic_reports(generic, ruleset, exclusions, issue, generic.len() as int)
            ==> generic_reports(
            generic_other,
            ruleset,
            exclusions,
            issue,
            generic_other.len() as int,
        ),
        units_report(parsed, ruleset, exclusions, issue, parsed.len() as int) ==> units_report(
            parsed_other,
            ruleset,
            exclusions,
            issue,
            parsed_other.len() as int,
        ),
{
    if generic_reports(generic, ruleset, exclusions, issue, generic.len() as int) {
        let u = choose|u: int|
            0 <= u < generic.len() && generic_findings(
                #[trigger] generic[u],
                ruleset,
                exclusions,
            ).contains(issue);
        assert(generic.contains(generic[u]));
        let v = choose|v: int| 0 <= v < generic_other.len() && generic_other[v] == generic[u];
        assert(generic_findings(generic_other[v], ruleset, exclusions).contains(issue));
    }
    if units_report(parsed, ruleset, exclusions, issue, parsed.len() as int) {
        let u = choose|u: int|
            0 <= u < parsed.len() && parsed_reports(
                #[trigger] parsed[u],
                ruleset,
                exclusions,
                issue,
            );
        assert(parsed.contains(parsed[u]));
        let v = choose|v: int| 0 <= v < parsed_other.len() && parsed_other[v] == parsed[u];
        assert(parsed_reports(parsed_other[v], ruleset, exclusions, issue));
    }
}

proof fn lemma_one_firing_line(
    rule: Rule,
    file_path: Seq<char>,
    lines: Seq<Seq<char>>,
    line: int,
    n: int,
)
    requires
        0 <= line < lines.len(),
        0 <= n <= lines.len(),
        forall|i: int| 0 <= i < lines.len() ==> (line_fires(rule, #[trigger] lines[i]) <==> i == line),
    ensures
        line_findings(rule, file_path, lines, n) == if line < n {
            seq![finding_of(rule, file_path, (line + 1) as nat, lines[line])]
        } else {
            Seq::empty()
        },
    decreases n,
{
    if n > 0 {
        lemma_one_firing_line(rule, file_path, lines, line, n - 1);
        assert(line_fires(rule, lines[n - 1]) <==> n - 1 == line);
        if n - 1 == line {
            assert(line_findings(rule, file_path, lines, n) =~= seq![
                finding_of(rule, file_path, (line + 1) as nat, lines[line]),
            ]);
        }
    }
}

/// One rule, one unit, one line: if the catalog holds a single rule whose
/// file pattern, if it has one, matches the path of the only unit, a file
/// that is scanned by line, and the regular expression of the rule fires on
/// exactly one line of the file, then a scan of the unit finds exactly one
/// issue: that of the rule, in that file, at that line.
pub proof fn lemma_single_finding(
    found: Seq<IssueView>,
    ruleset: &RuleSet,
    exclusions: Seq<String>,
    unit: GenericUnit,
    line: int,
)
    requires
        ruleset.rules@.len() == 1,
        rule_applies(ruleset.rules@[0], unit.file.path@),
        is_line_scanned(unit.file.path@, unit.file_name@, unit.extension, exclusions),
        0 <= line < lines_of(unit.file.content@).len(),
        forall|i: int|
            0 <= i < lines_of(unit.file.content@).len() ==> (line_fires(
                ruleset.rules@[0],
                #[trigger] lines_of(unit.file.content@)[i],
            ) <==> i == line),
        is_scan_result(
            found,
            ruleset,
            exclusions,
            Seq::<PythonFile>::empty(),
            seq![unit],
            Seq::<ParsedUnit>::empty(),
        ),
    ensures
        found == seq![
            finding_of(
                ruleset.rules@[0],
                unit.file.path@,
                (line + 1) as nat,
                lines_of(unit.file.content@)[line],
            ),
        ],
{
    let rule = ruleset.rules@[0];
    let path = unit.file.path@;
    let lines = lines_of(unit.file.content@);
    let only = finding_of(rule, path, (line + 1) as nat, lines[line]);
    let units = seq![unit];
    let none = Seq::<ParsedUnit>::empty();
    let files = Seq::<PythonFile>::empty();
    lemma_one_firing_line(rule, path, lines, line, lines.len() as int);
    assert(scan_findings(ruleset.rules@, path, lines, 0) =~= Seq::<IssueView>::empty());
    assert(scan_findings(ruleset.rules@, path, lines, 1) =~= seq![only]);
    assert(generic_findings(units[0], ruleset, exclusions) == seq![only]);
    assert(function_table(files, 0) =~= Seq::empty());
    assert(project_program_findings(ruleset, files) =~= Seq::<IssueView>::empty());
    assert forall|issue: IssueView|
        project_reports(ruleset, exclusions, files, units, none, issue) <==> issue == only by {
        if generic_reports(units, ruleset, exclusions, issue, 1) {
            let u = choose|u: int|
                0 <= u < 1 && generic_findings(#[trigger] units[u], ruleset, exclusions).contains(
                    issue,
                );
            assert(seq![only].contains(issue));
        }
        if issue == only {
            assert(seq![only][0] == only);
            assert(generic_findings(units[0], ruleset, exclusions).contains(issue));
        }
    }
    assert(project_reports(ruleset, exclusions, files, units, none, only));
    assert(has_fingerprint(found, fingerprint_of(only)));
    assert forall|k: int| 0 <= k < found.len() implies found[k] == only by {
        assert(found.contains(found[k]));
    }
    if found.len() >= 2 {
        assert(fingerprints_of(found)[0] == fingerprint_of(found[0]));
        assert(fingerprints_of(found)[1] == fingerprint_of(found[1]));
    }
    assert(found =~= seq![only]);
}

/// One rule, one file, one line: if the catalog holds a single rule whose
/// file pattern, if it has one, matches the plain path of the only file of
/// the project, a file that is scanned by line, and the regular expression
/// of the rule fires on exactly one line of the file, then a scan of the
/// project finds exactly one issue: that of the rule, in that file, at that
/// line.
pub proof fn lemma_project_single_finding(
    found: Seq<IssueView>,
    ruleset: &RuleSet,
    exclusions: Seq<String>,
    file: WalkedFile,
    line: int,
)
    requires
        ruleset.rules@.len() == 1,
        rule_applies(ruleset.rules@[0], file.path@),
        plain_path(file.path@),
        plain_line_scanned(file.path@, exclusions),
        0 <= line < lines_of(file.content@).len(),
        forall|i: int|
            0 <= i < lines_of(file.content@).len() ==> (line_fires(
                ruleset.rules@[0],
                #[trigger] lines_of(file.content@)[i],
            ) <==> i == line),
        is_project_scan(found, ruleset, exclusions, Seq::<PythonFile>::empty(), seq![file]),
    ensures
        found == seq![
            finding_of(
                ruleset.rules@[0],
                file.path@,
                (line + 1) as nat,
                lines_of(file.content@)[line],
            ),
        ],
{
    let files = Seq::<PythonFile>::empty();
    let walked = seq![file];
    let (generic, parsed) = choose|generic: Seq<GenericUnit>, parsed: Seq<ParsedUnit>|
        #![trigger resolves_walked(generic, walked), resolves_parsed(parsed, files)]
        resolves_walked(generic, walked) && resolves_parsed(parsed, files) && is_scan_result(
            found,
            ruleset,
            exclusions,
            files,
            generic,
            parsed,
        );
    let unit = generic[0];
    assert(*unit.file == walked[0]);
    assert(generic =~= seq![unit]);
    assert(parsed =~= Seq::<ParsedUnit>::empty());
    assert(unit.file_name@ == base_name(file.path@));
    assert(!is_source_extension(unit.extension));
    lemma_single_finding(found, ruleset, exclusions, unit, line);
}

} // verus!
