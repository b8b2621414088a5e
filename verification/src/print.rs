//! Options for rendering trees and tree diffs.
//!
//! Rendering itself — writing, coloring — consumes the edit script and the
//! two documents outside the core; these types carry the choices a renderer
//! honors, and the margin marker each line kind is given.

use vstd::prelude::*;

verus! {

/// How a single tree is rendered.
pub struct PrintTreeOptions {
    /// Whether node identities are attached to rendered nodes.
    pub with_id: bool,
    /// Whether namespaces are rendered with names.
    pub with_namespace: bool,
    /// Spaces of indentation per tree level.
    pub indent: usize,
}

/// How a tree difference is rendered.
pub struct PrintTreeDiffOptions {
    /// Whether namespaces are rendered with names.
    pub with_namespace: bool,
    /// Spaces of indentation per tree level.
    pub indent: usize,
    /// Whether added and deleted lines are colored.
    pub color: bool,
}

/// What kind of margin a rendered line carries: nothing, alignment space,
/// an addition, or a deletion.
#[derive(Debug, Clone, Copy)]
pub enum GutterKind {
    Plain,
    Blank,
    Add,
    Delete,
}

/// The margin marker of each line kind.
pub open spec fn symbol_of(g: GutterKind) -> Seq<char> {
    match g {
        GutterKind::Plain => ""@,
        GutterKind::Blank => " "@,
        GutterKind::Add => "+"@,
        GutterKind::Delete => "-"@,
    }
}

impl GutterKind {
    /// The one-character marker a renderer writes in the margin, empty for
    /// plain lines.
    pub fn symbol(&self) -> (r: &'static str)
        ensures
            r@ == symbol_of(*self),
    {
        match self {
            GutterKind::Plain => "",
            GutterKind::Blank => " ",
            GutterKind::Add => "+",
            GutterKind::Delete => "-",
        }
    }
}

impl PrintTreeOptions {
    /// Sets the indentation width. At least one space is needed to draw
    /// the connecting lines.
    pub fn with_indent(self, n: usize) -> (r: Self)
        requires
            n > 0,
        ensures
            r.indent == n,
            r.with_id == self.with_id,
            r.with_namespace == self.with_namespace,
    {
        let mut s = self;
        s.indent = n;
        s
    }

    /// Attach each node's identity while rendering; a renderer wraps it in
    /// square brackets.
    pub fn with_node_id(self) -> (r: Self)
        ensures
            r.with_id,
            r.indent == self.indent,
            r.with_namespace == self.with_namespace,
    {
        let mut s = self;
        s.with_id = true;
        s
    }
}

impl Default for PrintTreeOptions {
    /// Three spaces of indentation, no identities, no namespaces.
    fn default() -> (r: Self)
        ensures
            r.indent == 3,
            !r.with_id,
            !r.with_namespace,
    {
        PrintTreeOptions { indent: 3, with_id: false, with_namespace: false }
    }
}

impl PrintTreeDiffOptions {
    /// Sets the indentation width.
    pub fn indent(self, n: usize) -> (r: Self)
        ensures
            r.indent == n,
            r.with_namespace == self.with_namespace,
            r.color == self.color,
    {
        let mut s = self;
        s.indent = n;
        s
    }

    /// Turns coloring of added and deleted lines on or off.
    pub fn with_color(self, yes: bool) -> (r: Self)
        ensures
            r.color == yes,
            r.indent == self.indent,
            r.with_namespace == self.with_namespace,
    {
        let mut s = self;
        s.color = yes;
        s
    }
}

impl Default for PrintTreeDiffOptions {
    /// Three spaces of indentation, colored, no namespaces.
    fn default() -> (r: Self)
        ensures
            r.indent == 3,
            r.color,
            !r.with_namespace,
    {
        PrintTreeDiffOptions { indent: 3, color: true, with_namespace: false }
    }
}

} // verus!
