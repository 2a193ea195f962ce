//! The project-wide call graph: an index of the function definitions of all
//! parsed files, and for each function the functions that it may call.
//!
//! A function is known by its id, the path of its file and its name joined
//! by `::`. Calls are resolved by name alone: a call may reach every
//! function whose id ends with `::` and the name that is called.

use crate::ast_parser::{
    find_call_sites, find_functions, function_kinds, nodes_view, nodes_with_kind, text_field_of,
    AstNode, PythonFile,
};
use crate::call_names::{call_name_of, get_full_call_name};
use crate::text::{chars_of, ends_with, has_suffix, push_str, strings_view};
use vstd::prelude::*;
use vstd::string::*;

verus! {

/// A function definition of the project.
#[derive(Debug)]
pub struct FunctionEntry<'a> {
    pub id: String,
    pub file_path: String,
    pub node: &'a AstNode,
}

/// The functions that one function may call.
#[derive(Debug)]
pub struct CallList {
    pub caller: String,
    pub callees: Vec<String>,
}

/// The text of one file.
#[derive(Debug)]
pub struct FileText {
    pub path: String,
    pub content: String,
}

/// The call graph of a project. `functions` holds one entry for each
/// function id, in the order in which the ids were first met; `graph` holds
/// the call list of each function, in the same order; `file_contents` holds
/// the text of each file, one entry for each path.
#[derive(Debug)]
pub struct CallGraph<'a> {
    pub functions: Vec<FunctionEntry<'a>>,
    pub graph: Vec<CallList>,
    pub file_contents: Vec<FileText>,
}

/// The mathematical content of a [`FunctionEntry`].
pub struct Declaration {
    pub id: Seq<char>,
    pub file_path: Seq<char>,
    pub node: AstNode,
}

impl<'a> View for FunctionEntry<'a> {
    type V = Declaration;

    open spec fn view(&self) -> Declaration {
        Declaration { id: self.id@, file_path: self.file_path@, node: *self.node }
    }
}

/// The views of a sequence of function entries.
pub open spec fn entries_view(entries: Seq<FunctionEntry>) -> Seq<Declaration> {
    entries.map_values(|e: FunctionEntry| e@)
}

/// The views of a sequence of file texts: pairs of path and content.
pub open spec fn texts_view(texts: Seq<FileText>) -> Seq<(Seq<char>, Seq<char>)> {
    texts.map_values(|t: FileText| (t.path@, t.content@))
}

/// The separator between the path and the name in a function id.
pub open spec fn id_separator() -> Seq<char> {
    seq![':', ':']
}

/// The id of the function `name` of the file `file_path`.
pub open spec fn function_id(file_path: Seq<char>, name: Seq<char>) -> Seq<char> {
    file_path + id_separator() + name
}

/// Position of the first entry at or after `i` whose id is `id`.
pub open spec fn declaration_index(table: Seq<Declaration>, id: Seq<char>, i: int) -> Option<int>
    decreases table.len() - i,
{
    if i < 0 || i >= table.len() {
        None
    } else if table[i].id == id {
        Some(i)
    } else {
        declaration_index(table, id, i + 1)
    }
}

/// The table with the declaration `d`: in the place of the entry with its
/// id, if there is one, and else at the end.
pub open spec fn with_declaration(table: Seq<Declaration>, d: Declaration) -> Seq<Declaration> {
    match declaration_index(table, d.id, 0) {
        Some(i) => table.update(i, d),
        None => table.push(d),
    }
}

/// The table after the first `n` function definitions `defs` of the file
/// `file_path` were entered. A definition whose `id` field holds no text is
/// passed over.
pub open spec fn with_definitions(
    table: Seq<Declaration>,
    file_path: Seq<char>,
    defs: Seq<AstNode>,
    n: int,
) -> Seq<Declaration>
    decreases n,
{
    if n <= 0 {
        table
    } else {
        let before = with_definitions(table, file_path, defs, n - 1);
        match text_field_of(defs[n - 1], "id"@) {
            Some(name) => with_declaration(
                before,
                Declaration {
                    id: function_id(file_path, name),
                    file_path: file_path,
                    node: defs[n - 1],
                },
            ),
            None => before,
        }
    }
}

/// The table after the function definitions of `file` were entered; a file
/// without a tree has none.
pub open spec fn with_file(table: Seq<Declaration>, file: PythonFile) -> Seq<Declaration> {
    match file.ast {
        Some(ast) => {
            let defs = nodes_with_kind(ast, function_kinds());
            with_definitions(table, file.file_path@, defs, defs.len() as int)
        },
        None => table,
    }
}

/// The function table of the first `k` files: file by file, and within a
/// file in pre-order, a later definition of an id replaces an earlier one.
pub open spec fn function_table(files: Seq<PythonFile>, k: int) -> Seq<Declaration>
    decreases k,
{
    if k <= 0 {
        Seq::empty()
    } else {
        with_file(function_table(files, k - 1), files[k - 1])
    }
}

/// Position of the first entry at or after `i` whose path is `path`.
pub open spec fn text_index(table: Seq<(Seq<char>, Seq<char>)>, path: Seq<char>, i: int) -> Option<
    int,
>
    decreases table.len() - i,
{
    if i < 0 || i >= table.len() {
        None
    } else if table[i].0 == path {
        Some(i)
    } else {
        text_index(table, path, i + 1)
    }
}

/// The table with the text `content` for `path`, in the place of the entry
/// for that path, if there is one, and else at the end.
pub open spec fn with_text(
    table: Seq<(Seq<char>, Seq<char>)>,
    path: Seq<char>,
    content: Seq<char>,
) -> Seq<(Seq<char>, Seq<char>)> {
    match text_index(table, path, 0) {
        Some(i) => table.update(i, (path, content)),
        None => table.push((path, content)),
    }
}

/// The texts of the first `k` files by path; a later file with the path of
/// an earlier one replaces its text.
pub open spec fn content_table(files: Seq<PythonFile>, k: int) -> Seq<(Seq<char>, Seq<char>)>
    decreases k,
{
    if k <= 0 {
        Seq::empty()
    } else {
        with_text(content_table(files, k - 1), files[k - 1].file_path@, files[k - 1].content@)
    }
}

/// The text of the file `path`; the empty text if the table has no such
/// file.
pub open spec fn text_of(table: Seq<(Seq<char>, Seq<char>)>, path: Seq<char>) -> Seq<char> {
    match text_index(table, path, 0) {
        Some(i) => table[i].1,
        None => Seq::empty(),
    }
}

/// Whether no id occurs twice in `table`.
pub open spec fn distinct_ids(table: Seq<Declaration>) -> bool {
    forall|i: int, j: int|
        0 <= i < j < table.len() ==> (#[trigger] table[i]).id != (#[trigger] table[j]).id
}

/// Whether no path occurs twice in `table`.
pub open spec fn distinct_paths(table: Seq<(Seq<char>, Seq<char>)>) -> bool {
    forall|i: int, j: int|
        0 <= i < j < table.len() ==> (#[trigger] table[i]).0 != (#[trigger] table[j]).0
}

proof fn lemma_declaration_index(table: Seq<Declaration>, id: Seq<char>, i: int)
    requires
        0 <= i,
    ensures
        match declaration_index(table, id, i) {
            Some(k) => i <= k < table.len() && table[k].id == id,
            None => forall|k: int| i <= k < table.len() ==> (#[trigger] table[k]).id != id,
        },
    decreases table.len() - i,
{
    if i < table.len() && table[i].id != id {
        lemma_declaration_index(table, id, i + 1);
    }
}

proof fn lemma_text_index(table: Seq<(Seq<char>, Seq<char>)>, path: Seq<char>, i: int)
    requires
        0 <= i,
    ensures
        match text_index(table, path, i) {
            Some(k) => i <= k < table.len() && table[k].0 == path,
            None => forall|k: int| i <= k < table.len() ==> (#[trigger] table[k]).0 != path,
        },
    decreases table.len() - i,
{
    if i < table.len() && table[i].0 != path {
        lemma_text_index(table, path, i + 1);
    }
}

/// Entering a declaration keeps the ids of a table distinct.
proof fn lemma_with_declaration_distinct(table: Seq<Declaration>, d: Declaration)
    requires
        distinct_ids(table),
    ensures
        distinct_ids(with_declaration(table, d)),
{
    lemma_declaration_index(table, d.id, 0);
    let next = with_declaration(table, d);
    assert forall|i: int, j: int| 0 <= i < j < next.len() implies (#[trigger] next[i]).id != (
    #[trigger] next[j]).id by {
        match declaration_index(table, d.id, 0) {
            Some(k) => {
                assert(next[i].id == table[i].id);
                assert(next[j].id == table[j].id);
            },
            None => {
                if j < table.len() {
                    assert(next[i] == table[i] && next[j] == table[j]);
                } else {
                    assert(next[i] == table[i]);
                }
            },
        }
    }
}

proof fn lemma_with_definitions_distinct(
    table: Seq<Declaration>,
    file_path: Seq<char>,
    defs: Seq<AstNode>,
    n: int,
)
    requires
        distinct_ids(table),
    ensures
        distinct_ids(with_definitions(table, file_path, defs, n)),
    decreases n,
{
    if n > 0 {
        lemma_with_definitions_distinct(table, file_path, defs, n - 1);
        let before = with_definitions(table, file_path, defs, n - 1);
        match text_field_of(defs[n - 1], "id"@) {
            Some(name) => {
                lemma_with_declaration_distinct(
                    before,
                    Declaration {
                        id: function_id(file_path, name),
                        file_path: file_path,
                        node: defs[n - 1],
                    },
                );
            },
            None => {},
        }
    }
}

/// A function table holds each function id once.
pub proof fn lemma_function_table_distinct(files: Seq<PythonFile>, k: int)
    ensures
        distinct_ids(function_table(files, k)),
    decreases k,
{
    if k > 0 {
        lemma_function_table_distinct(files, k - 1);
        match files[k - 1].ast {
            Some(ast) => {
                let defs = nodes_with_kind(ast, function_kinds());
                lemma_with_definitions_distinct(
                    function_table(files, k - 1),
                    files[k - 1].file_path@,
                    defs,
                    defs.len() as int,
                );
            },
            None => {},
        }
    }
}

/// A table of file texts holds each path once.
pub proof fn lemma_content_table_distinct(files: Seq<PythonFile>, k: int)
    ensures
        distinct_paths(content_table(files, k)),
    decreases k,
{
    if k > 0 {
        lemma_content_table_distinct(files, k - 1);
        let table = content_table(files, k - 1);
        let path = files[k - 1].file_path@;
        let next = content_table(files, k);
        lemma_text_index(table, path, 0);
        assert forall|i: int, j: int| 0 <= i < j < next.len() implies (#[trigger] next[i]).0 != (
        #[trigger] next[j]).0 by {
            match text_index(table, path, 0) {
                Some(k) => {
                    assert(next[i].0 == table[i].0);
                    assert(next[j].0 == table[j].0);
                },
                None => {
                    if j < table.len() {
                        assert(next[i] == table[i] && next[j] == table[j]);
                    } else {
                        assert(next[i] == table[i]);
                    }
                },
            }
        }
    }
}

/// The names that the call nodes in the tree below `node` call, in
/// pre-order.
pub open spec fn call_names(node: AstNode) -> Seq<Seq<char>> {
    nodes_with_kind(node, seq!["Call"@]).map_values(|c: AstNode| call_name_of(c))
}

/// Whether a call of one of `names` may reach the function `id`: the id
/// ends with `::` and the name.
pub open spec fn is_call_target(id: Seq<char>, names: Seq<Seq<char>>) -> bool {
    exists|j: int| 0 <= j < names.len() && has_suffix(id, id_separator() + #[trigger] names[j])
}

/// The ids of those of the first `n` functions of `table` that a call of
/// one of `names` may reach, in table order.
pub open spec fn callees_upto(table: Seq<Declaration>, names: Seq<Seq<char>>, n: int) -> Seq<
    Seq<char>,
>
    decreases n,
{
    if n <= 0 {
        Seq::empty()
    } else {
        let before = callees_upto(table, names, n - 1);
        if is_call_target(table[n - 1].id, names) {
            before.push(table[n - 1].id)
        } else {
            before
        }
    }
}

/// Whether `list` is the call list of the function `caller`: it names the
/// caller and holds the ids of the functions of `table` that the calls in
/// the body of the caller may reach.
pub open spec fn is_call_list(
    list: CallList,
    table: Seq<Declaration>,
    caller: Declaration,
) -> bool {
    &&& list.caller@ == caller.id
    &&& strings_view(list.callees@) == callees_upto(
        table,
        call_names(caller.node),
        table.len() as int,
    )
}

impl<'a> CallGraph<'a> {
    /// Whether this is the call graph of `files`: its functions are the
    /// function table of the files and its texts their content table, each
    /// id and each path occurs once, and every function has its call list.
    pub open spec fn describes(&self, files: Seq<PythonFile>) -> bool {
        &&& entries_view(self.functions@) == function_table(files, files.len() as int)
        &&& texts_view(self.file_contents@) == content_table(files, files.len() as int)
        &&& distinct_ids(entries_view(self.functions@))
        &&& distinct_paths(texts_view(self.file_contents@))
        &&& self.graph@.len() == self.functions@.len()
        &&& forall|i: int|
            0 <= i < self.graph@.len() ==> is_call_list(
                #[trigger] self.graph@[i],
                entries_view(self.functions@),
                self.functions@[i]@,
            )
    }

    /// The text of the file `path`; the empty text if the graph has no such
    /// file.
    pub fn content_of(&self, path: &str) -> (r: &str)
        ensures
            r@ == text_of(texts_view(self.file_contents@), path@),
    {
        let ghost table = texts_view(self.file_contents@);
        let mut i: usize = 0;
        while i < self.file_contents.len()
            invariant
                i <= self.file_contents@.len(),
                table == texts_view(self.file_contents@),
                text_index(table, path@, 0) == text_index(table, path@, i as int),
            decreases self.file_contents@.len() - i,
        {
            assert(table[i as int] == (
                self.file_contents@[i as int].path@,
                self.file_contents@[i as int].content@,
            ));
            if self.file_contents[i].path.as_str().eq(path) {
                return self.file_contents[i].content.as_str();
            }
            i += 1;
        }
        proof {
            reveal_strlit("");
            assert(""@ =~= Seq::<char>::empty());
        }
        ""
    }
}

fn find_function(functions: &Vec<FunctionEntry>, id: &str) -> (r: Option<usize>)
    ensures
        match r {
            Some(i) => declaration_index(entries_view(functions@), id@, 0) == Some(i as int) && i
                < functions@.len(),
            None => declaration_index(entries_view(functions@), id@, 0) is None,
        },
{
    let ghost table = entries_view(functions@);
    let mut i: usize = 0;
    while i < functions.len()
        invariant
            i <= functions@.len(),
            table == entries_view(functions@),
            declaration_index(table, id@, 0) == declaration_index(table, id@, i as int),
        decreases functions@.len() - i,
    {
        assert(table[i as int] == functions@[i as int]@);
        if functions[i].id.as_str().eq(id) {
            return Some(i);
        }
        i += 1;
    }
    None
}

fn enter_function<'a>(functions: &mut Vec<FunctionEntry<'a>>, entry: FunctionEntry<'a>)
    ensures
        entries_view(final(functions)@) == with_declaration(entries_view(old(functions)@), entry@),
{
    let ghost table = entries_view(functions@);
    match find_function(functions, entry.id.as_str()) {
        Some(i) => {
            functions.set(i, entry);
            assert(entries_view(functions@) =~= table.update(i as int, entry@));
        },
        None => {
            functions.push(entry);
            assert(entries_view(functions@) =~= table.push(entry@));
        },
    }
}

fn find_text(texts: &Vec<FileText>, path: &str) -> (r: Option<usize>)
    ensures
        match r {
            Some(i) => text_index(texts_view(texts@), path@, 0) == Some(i as int) && i
                < texts@.len(),
            None => text_index(texts_view(texts@), path@, 0) is None,
        },
{
    let ghost table = texts_view(texts@);
    let mut i: usize = 0;
    while i < texts.len()
        invariant
            i <= texts@.len(),
            table == texts_view(texts@),
            text_index(table, path@, 0) == text_index(table, path@, i as int),
        decreases texts@.len() - i,
    {
        assert(table[i as int] == (texts@[i as int].path@, texts@[i as int].content@));
        if texts[i].path.as_str().eq(path) {
            return Some(i);
        }
        i += 1;
    }
    None
}

fn enter_text(texts: &mut Vec<FileText>, path: &str, content: &str)
    ensures
        texts_view(final(texts)@) == with_text(texts_view(old(texts)@), path@, content@),
{
    let ghost table = texts_view(texts@);
    let text = FileText { path: String::from_str(path), content: String::from_str(content) };
    match find_text(texts, path) {
        Some(i) => {
            texts.set(i, text);
            assert(texts_view(texts@) =~= table.update(i as int, (path@, content@)));
        },
        None => {
            texts.push(text);
            assert(texts_view(texts@) =~= table.push((path@, content@)));
        },
    }
}

/// The id of the function `name` of the file `file_path`.
pub fn make_function_id(file_path: &str, name: &str) -> (r: String)
    ensures
        r@ == function_id(file_path@, name@),
{
    let mut id = String::from_str(file_path);
    id.push(':');
    id.push(':');
    push_str(&mut id, name);
    assert(id@ =~= function_id(file_path@, name@));
    id
}

/// The names that the call nodes in the tree below `node` call.
pub fn collect_call_names(node: &AstNode) -> (r: Vec<String>)
    ensures
        strings_view(r@) == call_names(*node),
{
    let sites = find_call_sites(node);
    let ghost nodes = nodes_view(sites@);
    let mut names: Vec<String> = Vec::new();
    let mut k: usize = 0;
    while k < sites.len()
        invariant
            k <= sites@.len(),
            nodes == nodes_view(sites@),
            strings_view(names@) == nodes.take(k as int).map_values(|c: AstNode| call_name_of(c)),
        decreases sites@.len() - k,
    {
        let name = get_full_call_name(sites[k]);
        assert(nodes[k as int] == *sites@[k as int]);
        let ghost before = strings_view(names@);
        names.push(name);
        assert(strings_view(names@) =~= before.push(call_name_of(nodes[k as int])));
        assert(nodes.take(k + 1).map_values(|c: AstNode| call_name_of(c)) =~= nodes.take(
            k as int,
        ).map_values(|c: AstNode| call_name_of(c)).push(call_name_of(nodes[k as int])));
        k += 1;
    }
    assert(nodes.take(k as int) =~= nodes);
    names
}

/// Whether a call of one of `names` may reach the function `id`.
pub fn may_call(id: &str, names: &Vec<String>) -> (r: bool)
    ensures
        r == is_call_target(id@, strings_view(names@)),
{
    let id_chars = chars_of(id);
    let ghost texts = strings_view(names@);
    let mut j: usize = 0;
    while j < names.len()
        invariant
            j <= names@.len(),
            texts == strings_view(names@),
            id_chars@ == id@,
            forall|i: int| 0 <= i < j ==> !has_suffix(id@, id_separator() + #[trigger] texts[i]),
        decreases names@.len() - j,
    {
        let mut suffix: Vec<char> = vec![':', ':'];
        let name_chars = chars_of(names[j].as_str());
        let mut name_chars = name_chars;
        let ghost name = names@[j as int]@;
        assert(texts[j as int] == name);
        suffix.append(&mut name_chars);
        assert(suffix@ =~= id_separator() + name);
        if ends_with(&id_chars, &suffix) {
            return true;
        }
        j += 1;
    }
    false
}

/// The call list of the function at position `i` of `functions`.
fn call_list_of(functions: &Vec<FunctionEntry>, i: usize) -> (r: CallList)
    requires
        i < functions@.len(),
    ensures
        is_call_list(r, entries_view(functions@), functions@[i as int]@),
{
    let ghost table = entries_view(functions@);
    let names = collect_call_names(functions[i].node);
    let mut callees: Vec<String> = Vec::new();
    let mut t: usize = 0;
    while t < functions.len()
        invariant
            t <= functions@.len(),
            table == entries_view(functions@),
            strings_view(names@) == call_names(*functions@[i as int].node),
            strings_view(callees@) == callees_upto(table, strings_view(names@), t as int),
        decreases functions@.len() - t,
    {
        assert(table[t as int] == functions@[t as int]@);
        if may_call(functions[t].id.as_str(), &names) {
            let ghost before = strings_view(callees@);
            callees.push(functions[t].id.clone());
            assert(strings_view(callees@) =~= before.push(functions@[t as int].id@));
        }
        t += 1;
    }
    CallList { caller: functions[i].id.clone(), callees }
}

/// Builds the call graph of the parsed files `py_files`.
pub fn build_call_graph<'a>(py_files: &'a [PythonFile]) -> (call_graph: CallGraph<'a>)
    ensures
        call_graph.describes(py_files@),
{
    let mut functions: Vec<FunctionEntry<'a>> = Vec::new();
    let mut file_contents: Vec<FileText> = Vec::new();
    assert(entries_view(functions@) =~= Seq::<Declaration>::empty());
    assert(texts_view(file_contents@) =~= Seq::<(Seq<char>, Seq<char>)>::empty());
    let mut k: usize = 0;
    while k < py_files.len()
        invariant
            k <= py_files@.len(),
            entries_view(functions@) == function_table(py_files@, k as int),
            texts_view(file_contents@) == content_table(py_files@, k as int),
        decreases py_files@.len() - k,
    {
        let file = &py_files[k];
        match &file.ast {
            Some(ast) => {
                let defs = find_functions(ast);
                let ghost nodes = nodes_view(defs@);
                let ghost start = entries_view(functions@);
                let mut n: usize = 0;
                while n < defs.len()
                    invariant
                        n <= defs@.len(),
                        nodes == nodes_view(defs@),
                        entries_view(functions@) == with_definitions(
                            start,
                            file.file_path@,
                            nodes,
                            n as int,
                        ),
                    decreases defs@.len() - n,
                {
                    let def = defs[n];
                    assert(nodes[n as int] == *def);
                    match def.text_field("id") {
                        Some(name) => {
                            let id = make_function_id(file.file_path.as_str(), name.as_str());
                            enter_function(
                                &mut functions,
                                FunctionEntry { id, file_path: file.file_path.clone(), node: def },
                            );
                        },
                        None => {},
                    }
                    n += 1;
                }
                assert(nodes.len() == defs@.len());
            },
            None => {},
        }
        enter_text(&mut file_contents, file.file_path.as_str(), file.content.as_str());
        k += 1;
    }
    let mut graph: Vec<CallList> = Vec::new();
    let mut i: usize = 0;
    while i < functions.len()
        invariant
            i <= functions@.len(),
            graph@.len() == i,
            forall|j: int|
                0 <= j < i ==> is_call_list(
                    #[trigger] graph@[j],
                    entries_view(functions@),
                    functions@[j]@,
                ),
        decreases functions@.len() - i,
    {
        let list = call_list_of(&functions, i);
        graph.push(list);
        i += 1;
    }
    proof {
        lemma_function_table_distinct(py_files@, py_files@.len() as int);
        lemma_content_table_distinct(py_files@, py_files@.len() as int);
    }
    CallGraph { functions, graph, file_contents }
}

} // verus!
