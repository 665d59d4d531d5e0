//! Line-to-symbol resolver: binds `file_path + line_number`, or a bare symbol
//! name, to the canonical id of a graph node.
//!
//! A node id has the form `{file_path}:{kind}:{name}` and does not change when
//! lines move, so a binding to an id outlives edits above the symbol.

use vstd::prelude::*;

use crate::graph::{GraphOutput, Node, NodeId};
use crate::text;

verus! {

/// The canonical id that a lookup found.
#[derive(Debug, PartialEq, Eq)]
pub struct Resolved {
    pub node_id: NodeId,
}

impl Clone for Resolved {
    fn clone(&self) -> (copy: Self)
        ensures
            copy == *self,
    {
        Resolved { node_id: self.node_id.clone() }
    }
}

/// Whether `short` ends `long` and starts there at a path component.
pub open spec fn ends_path(long: Seq<char>, short: Seq<char>) -> bool {
    &&& short.is_suffix_of(long)
    &&& short.len() < long.len() ==> long[long.len() - short.len() - 1] == '/'
}

/// `path` without a leading `./`.
pub open spec fn without_dot_slash(path: Seq<char>) -> Seq<char> {
    if path.len() >= 2 && path[0] == '.' && path[1] == '/' {
        path.skip(2)
    } else {
        path
    }
}

/// Whether a graph path stands for the wanted path: they are equal, or one ends
/// the other at a path component, the graph path with or without its `./`. A path
/// without `/` ends no other path.
pub open spec fn same_file(node_path: Seq<char>, want: Seq<char>) -> bool {
    ||| node_path == want
    ||| want.contains('/') && ends_path(node_path, want)
    ||| without_dot_slash(node_path).contains('/') && ends_path(want, without_dot_slash(node_path))
}

/// Whether `node` spans line `line` of the file `file`.
pub open spec fn covers(node: Node, file: Seq<char>, line: int) -> bool {
    &&& same_file(node.source_file@, file)
    &&& node.start_line <= line <= node.end_line
}

/// How many lines lie between the two ends of `node`.
pub open spec fn span(node: Node) -> int {
    node.end_line - node.start_line
}

/// Whether `nodes[i]` is the innermost node around the line: no other one around
/// it has a smaller span, and none of the same span comes earlier.
pub open spec fn is_innermost(nodes: Seq<Node>, i: int, file: Seq<char>, line: int) -> bool {
    &&& 0 <= i < nodes.len()
    &&& covers(nodes[i], file, line)
    &&& forall|j: int|
        0 <= j < nodes.len() && covers(#[trigger] nodes[j], file, line) ==> span(nodes[i]) < span(
            nodes[j],
        ) || (span(nodes[i]) == span(nodes[j]) && i <= j)
}

/// The id of the innermost node around the line, if any node is.
pub open spec fn line_symbol(nodes: Seq<Node>, file: Seq<char>, line: int) -> Option<Seq<char>> {
    if exists|i: int| is_innermost(nodes, i, file, line) {
        Some(nodes[choose|i: int| is_innermost(nodes, i, file, line)].id.0@)
    } else {
        None
    }
}

/// The name in a node id `{file_path}:{kind}:{name}`: what follows the last `:` that
/// is no part of a `::`.
pub open spec fn symbol_name(node: Node) -> Seq<char> {
    text::after_last_single_colon(node.id.0@)
}

/// Whether `node` lies in `file` and the last `::` segments of its name and of
/// `function` are the same.
pub open spec fn names_symbol(node: Node, file: Seq<char>, function: Seq<char>) -> bool {
    &&& same_file(node.source_file@, file)
    &&& text::after_last_path_sep(symbol_name(node)) == text::after_last_path_sep(function)
}

/// Whether `node` is a function.
pub open spec fn is_function(node: Node) -> bool {
    node.kind@ == "function"@
}

/// Whether `a` is a better match than `b` for a symbol name: a function before
/// anything else, then the longer name.
pub open spec fn better_symbol(a: Node, b: Node) -> bool {
    ||| is_function(a) && !is_function(b)
    ||| is_function(a) == is_function(b) && symbol_name(a).len() > symbol_name(b).len()
}

/// Whether `nodes[i]` is the best match for a symbol name: no other match is
/// better, and no equally good one comes earlier.
pub open spec fn is_best_symbol(
    nodes: Seq<Node>,
    i: int,
    file: Seq<char>,
    function: Seq<char>,
) -> bool {
    &&& 0 <= i < nodes.len()
    &&& names_symbol(nodes[i], file, function)
    &&& forall|j: int|
        0 <= j < nodes.len() && names_symbol(#[trigger] nodes[j], file, function)
            ==> better_symbol(nodes[i], nodes[j]) || (!better_symbol(nodes[j], nodes[i]) && i <= j)
}

/// Whether the graph path `node_path` stands for `want`.
///
/// True where they are equal, where `node_path` ends with a `want` that contains
/// `/`, and where `want` ends with `node_path` (its `./` taken off), each time at
/// a path component.
pub fn file_matches(node_path: &str, want: &str) -> (r: bool)
    ensures
        r == same_file(node_path@, want@),
{
    if text::same_text(node_path, want) {
        return true;
    }
    let node: Vec<char> = text::chars_of(node_path);
    let wanted: Vec<char> = text::chars_of(want);
    if text::has_char(&wanted, '/') && text::ends_with(&node, &wanted) && at_component(
        &node,
        wanted.len(),
    ) {
        return true;
    }
    let dotted: bool = node.len() >= 2 && node[0] == '.' && node[1] == '/';
    let clean: Vec<char> = if dotted {
        text::chars_of(node_path.substring_char(2, node.len()))
    } else {
        text::chars_of(node_path)
    };
    assert(clean@ =~= without_dot_slash(node_path@));
    text::has_char(&clean, '/') && text::ends_with(&wanted, &clean) && at_component(
        &wanted,
        clean.len(),
    )
}

/// Whether the last `tail` characters of `path` start at a path component.
fn at_component(path: &Vec<char>, tail: usize) -> (r: bool)
    requires
        tail <= path.len(),
    ensures
        r == (tail < path.len() ==> path@[path.len() - tail - 1] == '/'),
{
    tail == path.len() || path[path.len() - tail - 1] == '/'
}

/// Finds the innermost node around line `line` of `file_path`.
///
/// Both ends of a node's line range count as inside. `None` where the file is
/// not in the graph or no node spans the line.
pub fn resolve_line(graph: &GraphOutput, file_path: &str, line: u32) -> (r: Option<Resolved>)
    ensures
        match r {
            Some(found) => line_symbol(graph.nodes@, file_path@, line as int) == Some(
                found.node_id.0@,
            ),
            None => line_symbol(graph.nodes@, file_path@, line as int) is None,
        },
        r is None <==> forall|i: int|
            0 <= i < graph.nodes@.len() ==> !covers(
                #[trigger] graph.nodes@[i],
                file_path@,
                line as int,
            ),
        forall|i: int|
            #[trigger] is_innermost(graph.nodes@, i, file_path@, line as int) ==> r == Some(
                Resolved { node_id: graph.nodes@[i].id },
            ),
{
    let at: usize = line as usize;
    let mut best: Option<usize> = None;
    let mut i: usize = 0;
    while i < graph.nodes.len()
        invariant
            i <= graph.nodes.len(),
            at == line,
            match best {
                Some(b) => b < i && is_innermost(
                    graph.nodes@.take(i as int),
                    b as int,
                    file_path@,
                    line as int,
                ),
                None => forall|j: int|
                    0 <= j < i ==> !covers(#[trigger] graph.nodes@[j], file_path@, line as int),
            },
        decreases graph.nodes.len() - i,
    {
        let node: &Node = &graph.nodes[i];
        let ghost seen = graph.nodes@.take(i as int);
        let ghost next = graph.nodes@.take(i + 1);
        assert(forall|j: int| 0 <= j < i ==> seen[j] == next[j]);
        assert(next[i as int] == *node);
        if file_matches(&node.source_file, file_path) && node.start_line <= at && at
            <= node.end_line {
            let closer: bool = match best {
                Some(b) => node.end_line - node.start_line < graph.nodes[b].end_line
                    - graph.nodes[b].start_line,
                None => true,
            };
            if closer {
                best = Some(i);
            }
        }
        i += 1;
    }
    assert(graph.nodes@.take(i as int) =~= graph.nodes@);
    match best {
        Some(b) => Some(Resolved { node_id: graph.nodes[b].id.clone() }),
        None => None,
    }
}

/// Finds the node that a symbol name stands for, where no line is known.
///
/// A profiler may give `crate::module::name`: the last `::` segment decides. A
/// function is preferred to other kinds of node, then the longer name, then the
/// earlier node. `None` for an empty name and where the file or the symbol is not
/// in the graph.
pub fn resolve_symbol(graph: &GraphOutput, file_path: &str, function_name: &str) -> (r: Option<
    Resolved,
>)
    ensures
        r is None <==> function_name@.len() == 0 || forall|i: int|
            0 <= i < graph.nodes@.len() ==> !names_symbol(
                #[trigger] graph.nodes@[i],
                file_path@,
                function_name@,
            ),
        function_name@.len() > 0 ==> forall|i: int|
            #[trigger] is_best_symbol(graph.nodes@, i, file_path@, function_name@) ==> r == Some(
                Resolved { node_id: graph.nodes@[i].id },
            ),
        r matches Some(found) ==> exists|i: int|
            #[trigger] is_best_symbol(graph.nodes@, i, file_path@, function_name@)
                && found.node_id == graph.nodes@[i].id,
{
    if function_name.is_empty() {
        return None;
    }
    let leaf: &str = text::segment_after_path_sep(function_name);
    let mut best: Option<usize> = None;
    let mut best_is_fn: bool = false;
    let mut best_name_len: usize = 0;
    let mut i: usize = 0;
    while i < graph.nodes.len()
        invariant
            i <= graph.nodes.len(),
            leaf@ == text::after_last_path_sep(function_name@),
            match best {
                Some(b) => b < i && best_is_fn == is_function(graph.nodes@[b as int])
                    && best_name_len == symbol_name(graph.nodes@[b as int]).len()
                    && is_best_symbol(
                    graph.nodes@.take(i as int),
                    b as int,
                    file_path@,
                    function_name@,
                ),
                None => forall|j: int|
                    0 <= j < i ==> !names_symbol(
                        #[trigger] graph.nodes@[j],
                        file_path@,
                        function_name@,
                    ),
            },
        decreases graph.nodes.len() - i,
    {
        let node: &Node = &graph.nodes[i];
        let ghost seen = graph.nodes@.take(i as int);
        let ghost next = graph.nodes@.take(i + 1);
        assert(forall|j: int| 0 <= j < i ==> seen[j] == next[j]);
        assert(next[i as int] == *node);
        let node_name: &str = text::segment_after_single_colon(&node.id.0);
        let node_leaf: &str = text::segment_after_path_sep(node_name);
        if file_matches(&node.source_file, file_path) && text::same_text(node_leaf, leaf) {
            let is_fn: bool = text::same_text(&node.kind, "function");
            let name_len: usize = text::chars_of(node_name).len();
            if best.is_none() || (is_fn && !best_is_fn) || (is_fn == best_is_fn && name_len
                > best_name_len) {
                best = Some(i);
                best_is_fn = is_fn;
                best_name_len = name_len;
            }
        }
        i += 1;
    }
    assert(graph.nodes@.take(i as int) =~= graph.nodes@);
    match best {
        Some(b) => Some(Resolved { node_id: graph.nodes[b].id.clone() }),
        None => None,
    }
}

/// All nodes that match a symbol name carry the last `::` segment of that name.
pub proof fn matches_share_the_last_segment(
    a: Node,
    b: Node,
    file: Seq<char>,
    function: Seq<char>,
)
    requires
        names_symbol(a, file, function),
        names_symbol(b, file, function),
    ensures
        text::after_last_path_sep(symbol_name(a)) == text::after_last_path_sep(symbol_name(b)),
        text::after_last_path_sep(symbol_name(a)) == text::after_last_path_sep(function),
{
}

/// The name in an id `{file_path}:{kind}:{name}` is the one that it was made of. The
/// name may hold `::`, but no single `:`.
pub proof fn id_gives_back_its_name(
    node: Node,
    file_path: Seq<char>,
    kind: Seq<char>,
    name: Seq<char>,
)
    requires
        node.id.0@ == file_path + seq![':'] + kind + seq![':'] + name,
        kind.len() > 0,
        kind.last() != ':',
        text::after_last_single_colon(name) == name,
    ensures
        symbol_name(node) == name,
{
    text::lemma_behind_single_colon(file_path + seq![':'] + kind + seq![':'], name);
}

/// A path stands for itself.
pub proof fn path_matches_itself(path: Seq<char>)
    ensures
        same_file(path, path),
{
}

/// A bare file name, one without `/`, stands only for itself.
pub proof fn bare_name_matches_only_itself(node_path: Seq<char>, want: Seq<char>)
    requires
        !want.contains('/'),
        node_path != want,
    ensures
        !same_file(node_path, want),
{
    let clean = without_dot_slash(node_path);
    if clean.contains('/') && ends_path(want, clean) {
        let k = choose|k: int| 0 <= k < clean.len() && clean[k] == '/';
        assert(want[want.len() - clean.len() + k] == '/');
        assert(want.contains('/'));
    }
}

/// A graph path matches the path that is left when leading directories are cut
/// off, as long as that still contains a `/`.
pub proof fn longer_graph_path_matches(dirs: Seq<char>, want: Seq<char>)
    requires
        dirs.len() > 0,
        dirs.last() == '/',
        want.contains('/'),
    ensures
        same_file(dirs + want, want),
{
    assert((dirs + want).subrange(dirs.len() as int, (dirs + want).len() as int) =~= want);
}

/// A graph path matches any path that adds leading directories to it, with or
/// without its leading `./`.
pub proof fn longer_wanted_path_matches(dirs: Seq<char>, node_path: Seq<char>)
    requires
        dirs.len() > 0,
        dirs.last() == '/',
        without_dot_slash(node_path).contains('/'),
    ensures
        same_file(node_path, dirs + node_path),
        same_file(node_path, dirs + without_dot_slash(node_path)),
{
    let clean = without_dot_slash(node_path);
    let whole = dirs + node_path;
    let cut = dirs + clean;
    assert(whole.subrange(whole.len() - clean.len(), whole.len() as int) =~= clean);
    assert(cut.subrange(cut.len() - clean.len(), cut.len() as int) =~= clean);
}

/// Moving every symbol and the line by the same number of lines resolves to the
/// same canonical id: a binding survives edits above the symbol.
pub proof fn shifted_lines_keep_the_symbol(
    nodes: Seq<Node>,
    moved: Seq<Node>,
    by: int,
    file: Seq<char>,
    line: int,
)
    requires
        moved.len() == nodes.len(),
        forall|i: int|
            0 <= i < nodes.len() ==> {
                &&& (#[trigger] moved[i]).id == nodes[i].id
                &&& moved[i].source_file == nodes[i].source_file
                &&& moved[i].start_line == nodes[i].start_line + by
                &&& moved[i].end_line == nodes[i].end_line + by
            },
    ensures
        line_symbol(moved, file, line + by) == line_symbol(nodes, file, line),
{
    let at = line + by;
    assert forall|i: int|
        #[trigger] is_innermost(nodes, i, file, line) == is_innermost(
            moved,
            i,
            file,
            at,
        ) by {
        assert(forall|j: int|
            0 <= j < nodes.len() ==> covers(#[trigger] nodes[j], file, line) == covers(
                moved[j],
                file,
                at,
            ));
        assert(forall|j: int|
            0 <= j < nodes.len() ==> covers(#[trigger] moved[j], file, at) == covers(
                nodes[j],
                file,
                line,
            ));
    }
    if exists|i: int| is_innermost(nodes, i, file, line) {
        let i = choose|i: int| is_innermost(nodes, i, file, line);
        assert(is_innermost(moved, i, file, at));
        lemma_innermost_is_the_symbol(nodes, i, file, line);
        lemma_innermost_is_the_symbol(moved, i, file, at);
    } else {
        assert forall|i: int| !is_innermost(moved, i, file, at) by {
            assert(!is_innermost(nodes, i, file, line));
        }
    }
}

/// There is one innermost node at most.
proof fn lemma_innermost_is_the_symbol(nodes: Seq<Node>, i: int, file: Seq<char>, line: int)
    requires
        is_innermost(nodes, i, file, line),
    ensures
        line_symbol(nodes, file, line) == Some(nodes[i].id.0@),
{
    let k = choose|k: int| is_innermost(nodes, k, file, line);
    assert(is_innermost(nodes, k, file, line));
    assert(covers(nodes[k], file, line) && covers(nodes[i], file, line));
}

/// Two different paths match only where the one is the end of the other, in whole
/// components, and has more than one component itself. A graph path counts without
/// a leading `./` there.
pub proof fn matching_paths_share_their_end(node_path: Seq<char>, want: Seq<char>)
    requires
        same_file(node_path, want),
        node_path != want,
    ensures
        ({
            let start = node_path.len() - want.len();
            let clean = if node_path.len() >= 2 && node_path[0] == '.' && node_path[1] == '/' {
                node_path.skip(2)
            } else {
                node_path
            };
            let from = want.len() - clean.len();
            ||| start > 0 && node_path.skip(start) == want && node_path[start - 1] == '/'
                && want.contains('/')
            ||| from >= 0 && want.skip(from) == clean && (from == 0 || want[from - 1] == '/')
                && clean.contains('/')
        }),
{
    if want.contains('/') && ends_path(node_path, want) {
        let start = node_path.len() - want.len();
        assert(node_path.skip(start) =~= want);
        if start == 0 {
            assert(node_path =~= want);
        }
    } else {
        let clean = without_dot_slash(node_path);
        assert(want.skip(want.len() - clean.len()) =~= clean);
    }
}

/// A path of more than one component matches a graph path that is the same, or the
/// same with a `./` before it, and any wanted path that puts directories before it.
pub proof fn directories_before_a_path_do_not_matter(dirs: Seq<char>, path: Seq<char>)
    requires
        path.contains('/'),
        !(path.len() >= 2 && path[0] == '.' && path[1] == '/'),
        dirs.len() > 0 ==> dirs.last() == '/',
    ensures
        same_file(path, dirs + path),
        same_file(seq!['.', '/'] + path, dirs + path),
        same_file(dirs + path, path),
{
    let whole = dirs + path;
    let dotted = seq!['.', '/'] + path;
    assert(dotted.skip(2) =~= path);
    assert(whole.subrange(whole.len() - path.len(), whole.len() as int) =~= path);
}

/// The symbol of a line is one whose file matches and whose lines hold the line, with
/// no longer a range of lines than any other such symbol; of two ranges of the same
/// length it is the one that comes first. There is none only where no symbol of the
/// file holds the line.
pub proof fn line_symbol_has_the_shortest_range(nodes: Seq<Node>, file: Seq<char>, line: int)
    ensures
        match line_symbol(nodes, file, line) {
            Some(id) => exists|i: int|
                {
                    &&& 0 <= i < nodes.len()
                    &&& (#[trigger] nodes[i]).id.0@ == id
                    &&& same_file(nodes[i].source_file@, file)
                    &&& nodes[i].start_line <= line
                    &&& line <= nodes[i].end_line
                    &&& forall|j: int|
                        0 <= j < nodes.len() && same_file((#[trigger] nodes[j]).source_file@, file)
                            && nodes[j].start_line <= line && line <= nodes[j].end_line
                            ==> nodes[i].end_line - nodes[i].start_line < nodes[j].end_line
                            - nodes[j].start_line || (nodes[i].end_line - nodes[i].start_line
                            == nodes[j].end_line - nodes[j].start_line && i <= j)
                },
            None => forall|j: int|
                0 <= j < nodes.len() && same_file((#[trigger] nodes[j]).source_file@, file) ==> line
                    < nodes[j].start_line || nodes[j].end_line < line,
        },
{
    lemma_some_innermost(nodes, file, line);
    match line_symbol(nodes, file, line) {
        Some(id) => {
            let i = choose|i: int| is_innermost(nodes, i, file, line);
            assert(is_innermost(nodes, i, file, line));
            assert(nodes[i].id.0@ == id);
            assert forall|j: int|
                0 <= j < nodes.len() && same_file((#[trigger] nodes[j]).source_file@, file)
                    && nodes[j].start_line <= line && line <= nodes[j].end_line implies nodes[i].end_line
                - nodes[i].start_line < nodes[j].end_line - nodes[j].start_line || (
            nodes[i].end_line - nodes[i].start_line == nodes[j].end_line - nodes[j].start_line && i
                <= j) by {
                assert(covers(nodes[j], file, line));
            }
        },
        None => {
            assert forall|j: int|
                0 <= j < nodes.len() && same_file(
                    (#[trigger] nodes[j]).source_file@,
                    file,
                ) implies line < nodes[j].start_line || nodes[j].end_line < line by {
                assert(!covers(nodes[j], file, line));
            }
        },
    }
}

/// Where a symbol holds the line, one is the innermost.
proof fn lemma_some_innermost(nodes: Seq<Node>, file: Seq<char>, line: int)
    ensures
        (exists|i: int| is_innermost(nodes, i, file, line)) || forall|j: int|
            0 <= j < nodes.len() ==> !covers(#[trigger] nodes[j], file, line),
    decreases nodes.len(),
{
    if nodes.len() > 0 {
        let head = nodes.drop_last();
        let n = nodes.len() - 1;
        lemma_some_innermost(head, file, line);
        assert(forall|j: int| 0 <= j < n ==> head[j] == nodes[j]);
        if exists|i: int| is_innermost(head, i, file, line) {
            let i = choose|i: int| is_innermost(head, i, file, line);
            assert(is_innermost(head, i, file, line));
            if covers(nodes[n], file, line) && span(nodes[n]) < span(nodes[i]) {
                assert forall|j: int|
                    0 <= j < nodes.len() && covers(#[trigger] nodes[j], file, line) implies span(
                    nodes[n],
                ) < span(nodes[j]) || (span(nodes[n]) == span(nodes[j]) && n <= j) by {
                    if j < n {
                        assert(covers(head[j], file, line));
                    }
                }
                assert(is_innermost(nodes, n, file, line));
            } else {
                assert forall|j: int|
                    0 <= j < nodes.len() && covers(#[trigger] nodes[j], file, line) implies span(
                    nodes[i],
                ) < span(nodes[j]) || (span(nodes[i]) == span(nodes[j]) && i <= j) by {
                    if j < n {
                        assert(covers(head[j], file, line));
                    }
                }
                assert(is_innermost(nodes, i, file, line));
            }
        } else if covers(nodes[n], file, line) {
            assert forall|j: int| 0 <= j < nodes.len() && covers(#[trigger] nodes[j], file, line)
                implies span(nodes[n]) < span(nodes[j]) || (span(nodes[n]) == span(nodes[j]) && n
                <= j) by {
                if j < n {
                    assert(!covers(head[j], file, line));
                }
            }
            assert(is_innermost(nodes, n, file, line));
        }
    }
}

/// A line inside a symbol that lies within another one is never bound to the outer
/// one, however long the two are, unless another symbol has its id.
pub proof fn inner_symbol_hides_the_outer_one(
    nodes: Seq<Node>,
    file: Seq<char>,
    line: int,
    outer: int,
    inner: int,
)
    requires
        0 <= outer < nodes.len(),
        0 <= inner < nodes.len(),
        same_file(nodes[inner].source_file@, file),
        nodes[inner].start_line <= line <= nodes[inner].end_line,
        nodes[outer].start_line <= nodes[inner].start_line,
        nodes[inner].end_line <= nodes[outer].end_line,
        nodes[outer].start_line != nodes[inner].start_line || nodes[outer].end_line
            != nodes[inner].end_line,
        forall|i: int|
            0 <= i < nodes.len() && (#[trigger] nodes[i]).id.0@ == nodes[outer].id.0@ ==> i
                == outer,
    ensures
        line_symbol(nodes, file, line) is Some,
        line_symbol(nodes, file, line) != Some(nodes[outer].id.0@),
{
    line_symbol_has_the_shortest_range(nodes, file, line);
}

/// A node that is chosen for a symbol name lies in the file and ends in the wanted
/// segment. No function loses to another kind of node, among nodes alike in that no
/// longer name loses to a shorter one, and among names of the same length the first
/// node is taken.
pub proof fn best_symbol_beats_every_other_match(
    nodes: Seq<Node>,
    i: int,
    j: int,
    file: Seq<char>,
    function: Seq<char>,
)
    requires
        is_best_symbol(nodes, i, file, function),
        0 <= j < nodes.len(),
        same_file(nodes[j].source_file@, file),
        text::after_last_path_sep(symbol_name(nodes[j])) == text::after_last_path_sep(function),
    ensures
        0 <= i < nodes.len(),
        same_file(nodes[i].source_file@, file),
        text::after_last_path_sep(symbol_name(nodes[i])) == text::after_last_path_sep(function),
        nodes[j].kind@ == "function"@ ==> nodes[i].kind@ == "function"@,
        (nodes[j].kind@ == "function"@) == (nodes[i].kind@ == "function"@) ==> symbol_name(
            nodes[j],
        ).len() < symbol_name(nodes[i]).len() || (symbol_name(nodes[j]).len() == symbol_name(
            nodes[i],
        ).len() && i <= j),
{
    assert(names_symbol(nodes[j], file, function));
}

/// A node matches a symbol name exactly where the file matches and the plain names at
/// the ends of the two are the same, whatever stands before their last `::`.
pub proof fn symbols_match_by_their_plain_name(
    node: Node,
    file: Seq<char>,
    node_path: Seq<char>,
    node_plain: Seq<char>,
    path: Seq<char>,
    plain: Seq<char>,
    function: Seq<char>,
)
    requires
        !node_plain.contains(':'),
        !plain.contains(':'),
        symbol_name(node) == node_plain || symbol_name(node) == node_path + seq![':', ':']
            + node_plain,
        function == plain || function == path + seq![':', ':'] + plain,
    ensures
        names_symbol(node, file, function) <==> same_file(node.source_file@, file) && node_plain
            == plain,
{
    lemma_plain_name(symbol_name(node), node_path, node_plain);
    lemma_plain_name(function, path, plain);
}

/// The last segment of a name that ends in a plain one.
proof fn lemma_plain_name(name: Seq<char>, path: Seq<char>, plain: Seq<char>)
    requires
        !plain.contains(':'),
        name == plain || name == path + seq![':', ':'] + plain,
    ensures
        text::after_last_path_sep(name) == plain,
{
    text::last_segment_follows_the_last_separator(name);
    let k = name.len() - text::after_last_path_sep(name).len();
    let at = name.len() - plain.len();
    assert(name.skip(at) =~= plain);
    assert forall|i: int| at <= i < name.len() implies #[trigger] name[i] != ':' by {
        assert(plain[i - at] == name[i]);
        assert(plain.contains(plain[i - at]));
    }
    if at > 0 {
        assert(name[at - 1] == ':' && name[at - 2] == ':');
        assert(k >= at);
    }
    if k > at {
        assert(name[k - 1] != ':');
    }
}

/// The name in an id `{file_path}:{kind}:{name}` is the one that it was made of, where
/// the colons of the name come in twos.
pub proof fn name_is_the_last_part_of_an_id(
    node: Node,
    file_path: Seq<char>,
    kind: Seq<char>,
    name: Seq<char>,
)
    requires
        node.id.0@ == file_path + seq![':'] + kind + seq![':'] + name,
        kind.len() > 0,
        kind.last() != ':',
        forall|i: int|
            0 <= i < name.len() && #[trigger] name[i] == ':' ==> (i > 0 && name[i - 1] == ':') != (i
                + 1 < name.len() && name[i + 1] == ':'),
    ensures
        symbol_name(node) == name,
{
    let head = file_path + seq![':'] + kind;
    assert(node.id.0@ =~= head.push(':') + name);
    text::text_behind_a_single_colon_is_left(head, name);
}

} // verus!
