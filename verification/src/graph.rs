//! What the bridge reads of a code graph and of the workspace it belongs to.

use vstd::prelude::*;

verus! {

/// Canonical id of a symbol: `{file_path}:{kind}:{name}`.
#[derive(Debug, PartialEq, Eq)]
pub struct NodeId(pub String);

impl Clone for NodeId {
    fn clone(&self) -> (copy: Self)
        ensures
            copy == *self,
    {
        NodeId(self.0.clone())
    }
}

/// One symbol of the graph and the lines that it spans, both ends included.
#[derive(Debug, PartialEq, Eq)]
pub struct Node {
    pub id: NodeId,
    pub kind: String,
    pub source_file: String,
    pub start_line: usize,
    pub end_line: usize,
}

impl Clone for Node {
    fn clone(&self) -> (copy: Self)
        ensures
            copy == *self,
    {
        Node {
            id: self.id.clone(),
            kind: self.kind.clone(),
            source_file: self.source_file.clone(),
            start_line: self.start_line,
            end_line: self.end_line,
        }
    }
}

/// A code graph: its symbols, in the order in which they were extracted.
#[derive(Debug, PartialEq, Eq)]
pub struct GraphOutput {
    pub nodes: Vec<Node>,
}

impl Clone for GraphOutput {
    fn clone(&self) -> (copy: Self)
        ensures
            copy.nodes@ == self.nodes@,
    {
        let mut nodes: Vec<Node> = Vec::new();
        let mut i: usize = 0;
        while i < self.nodes.len()
            invariant
                i <= self.nodes.len(),
                nodes@ == self.nodes@.take(i as int),
            decreases self.nodes.len() - i,
        {
            nodes.push(self.nodes[i].clone());
            i += 1;
        }
        GraphOutput { nodes }
    }
}

/// The workspace that a plugin is bound to.
#[derive(Debug, PartialEq, Eq)]
pub struct WorkspaceContext {
    pub workspace_key: String,
    pub name: String,
    pub root: String,
}

impl WorkspaceContext {
    /// Puts the three parts together.
    pub fn new(workspace_key: String, name: String, root: String) -> (ctx: Self)
        ensures
            ctx.workspace_key == workspace_key,
            ctx.name == name,
            ctx.root == root,
    {
        WorkspaceContext { workspace_key, name, root }
    }

    /// The context of the directory `cwd`: its name is the last component of the
    /// path, or `workspace` for a path that has none.
    pub fn of_directory(workspace_key: String, dir_name: Option<String>, cwd: String) -> (ctx: Self)
        ensures
            ctx.workspace_key == workspace_key,
            ctx.name@ == (match dir_name {
                Some(n) => n@,
                None => "workspace"@,
            }),
            ctx.root == cwd,
    {
        let name: String = match dir_name {
            Some(n) => n,
            None => "workspace".to_owned(),
        };
        WorkspaceContext::new(workspace_key, name, cwd)
    }
}

} // verus!
