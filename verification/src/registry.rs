//! The pure declaration every entry point constructs: what each source
//! runs, how often, and the box it paints into. No threads, no
//! processes, no terminal reads — the runtime resources live in the
//! engine, keyed by [`SourceId`].
use vstd::prelude::*;
use vstd::string::*;

use crate::box_model::{BorderPreset, Sides};
use crate::template::{expand_spec, Bindings, Template};
use crate::text::{
    debug_quote, debug_str, decimal, decimal_string,
    chars_from, chars_of, chars_range, chars_start_with, find_char_from, find_sp, index_of_from, is_ws,
    sp_index_from, starts_with, string_of, trim, trim_chars, trim_sp, trim_sp_chars,
};
use crate::trigger::TriggerSpec;

verus! {

broadcast use vstd::string::group_string_axioms;

/// Stable index of one source: the tag on every outcome and the key of
/// every per-source runtime resource.
#[derive(Copy, Clone, PartialEq, Eq, PartialOrd, Ord, Hash, Debug, Structural)]
pub struct SourceId(pub usize);

/// How a source's command reaches the OS: directly as argv, through
/// the platform's own shell, or through a shell the author named.
#[derive(Clone, PartialEq, Eq, Debug)]
pub enum ShellMode {
    /// argv, executed directly. No shell at all.
    Direct,
    /// `sh` on unix, `%COMSPEC%` (or `cmd`) on Windows.
    Platform,
    /// The named program, invoked with its dialect's command flag.
    Named(String),
}

impl Default for ShellMode {
    fn default() -> (m: ShellMode)
        ensures
            m is Direct,
    {
        ShellMode::Direct
    }
}

impl ShellMode {
    /// Whether a shell is involved at all — the one thing the command
    /// split depends on.
    pub fn runs_a_shell(&self) -> (b: bool)
        ensures
            b == !(*self is Direct),
    {
        !matches!(self, ShellMode::Direct)
    }

    /// Whether two modes run the same way.
    pub fn same_as(&self, other: &ShellMode) -> (same: bool)
        ensures
            same == (self@ == other@),
    {
        match self {
            ShellMode::Direct => match other {
                ShellMode::Direct => true,
                _ => false,
            },
            ShellMode::Platform => match other {
                ShellMode::Platform => true,
                _ => false,
            },
            ShellMode::Named(a) => match other {
                ShellMode::Named(o) => *a == *o,
                _ => false,
            },
        }
    }

    /// The same mode, field for field.
    pub fn duplicate(&self) -> (m: ShellMode)
        ensures
            m@ == self@,
    {
        match self {
            ShellMode::Direct => ShellMode::Direct,
            ShellMode::Platform => ShellMode::Platform,
            ShellMode::Named(n) => ShellMode::Named(n.clone()),
        }
    }
}

/// A mode as the contracts read it: the named shell by its chars.
pub enum ModeView {
    Direct,
    Platform,
    Named(Seq<char>),
}

impl View for ShellMode {
    type V = ModeView;

    open spec fn view(&self) -> ModeView {
        match self {
            ShellMode::Direct => ModeView::Direct,
            ShellMode::Platform => ModeView::Platform,
            ShellMode::Named(n) => ModeView::Named(n@),
        }
    }
}

} // verus!

verus! {

/// A `shell` declaration as WRITTEN — on a pane, on `defaults`, and on
/// a variable. `ShellMode` is the resolved thing, built only after the
/// name has been expanded.
#[derive(Clone, PartialEq, Eq, Debug)]
pub enum ShellDecl {
    /// `shell=#false` — no shell at all.
    Direct,
    /// `shell=#true` — the platform shell, full stop.
    Platform,
    /// `shell="fish"`, or `shell="{{dialect}}"`.
    Named(Template),
}

impl Default for ShellDecl {
    fn default() -> (d: ShellDecl)
        ensures
            d is Direct,
    {
        ShellDecl::Direct
    }
}

/// A `shell` dialect name that expanded to nothing — or could not be
/// expanded, which names nothing either.
#[derive(Clone, PartialEq, Eq, Debug)]
pub struct EmptyShellName {
    /// The dialect name as the author wrote it, holes and all.
    pub declared: String,
}

pub open spec fn empty_shell_text(declared: Seq<char>) -> Seq<char> {
    "`shell` expanded to an empty name (written as "@ + crate::text::debug_str(declared)
        + ") — a shell name must name a program"@
}

impl EmptyShellName {
    /// The sentence a refusal shows.
    pub fn message(&self) -> (m: String)
        ensures
            m@ == empty_shell_text(self.declared@),
    {
        let mut m = String::from_str("`shell` expanded to an empty name (written as ");
        let q = crate::text::debug_quote(self.declared.as_str());
        m.append(q.as_str());
        m.append(") — a shell name must name a program");
        m
    }
}

/// What `ShellDecl::resolve` makes of a declaration under a set of
/// values: the mode, or the written name that expanded to nothing.
pub open spec fn resolve_spec(decl: ShellDecl, b: Bindings) -> Result<ModeView, Seq<char>> {
    match decl {
        ShellDecl::Direct => Ok(ModeView::Direct),
        ShellDecl::Platform => Ok(ModeView::Platform),
        ShellDecl::Named(t) => match expand_spec(t, b) {
            Ok(name) => if trim(name).len() == 0 { Err(t.text@) } else { Ok(ModeView::Named(name)) },
            Err(_) => Err(t.text@),
        },
    }
}

impl ShellDecl {
    /// Whether a shell is involved at all, answerable before expansion:
    /// any non-empty name is a shell whatever it expands to.
    pub fn runs_a_shell(&self) -> (b: bool)
        ensures
            b == !(*self is Direct),
    {
        !matches!(self, ShellDecl::Direct)
    }

    pub open spec fn refs_spec(&self) -> Seq<String> {
        match self {
            ShellDecl::Named(t) => t.refs@,
            _ => seq![],
        }
    }

    /// The names a templated dialect name references — empty for the
    /// two switch forms.
    pub fn refs(&self) -> (r: &[String])
        ensures
            r@ == self.refs_spec(),
    {
        match self {
            ShellDecl::Named(template) => template.refs(),
            _ => &[],
        }
    }

    /// The resolved mode, once the dialect name has been expanded. A
    /// name that expands to nothing, or cannot be expanded, is refused.
    pub fn resolve(&self, bindings: &Bindings) -> (r: Result<ShellMode, EmptyShellName>)
        ensures
            match resolve_spec(*self, *bindings) {
                Ok(m) => r is Ok && r->Ok_0@ == m,
                Err(d) => r is Err && r->Err_0.declared@ == d,
            },
    {
        match self {
            ShellDecl::Direct => Ok(ShellMode::Direct),
            ShellDecl::Platform => Ok(ShellMode::Platform),
            ShellDecl::Named(template) => {
                match template.expand(bindings) {
                    Ok(name) => {
                        let v = chars_of(name.as_str());
                        let t = trim_chars(v.as_slice());
                        if t.len() == 0 {
                            Err(EmptyShellName { declared: template.text.clone() })
                        } else {
                            Ok(ShellMode::Named(name))
                        }
                    },
                    Err(_) => Err(EmptyShellName { declared: template.text.clone() }),
                }
            },
        }
    }

    /// The same declaration, field for field.
    pub fn duplicate(&self) -> (d: ShellDecl)
        ensures
            d.same_spec(*self),
    {
        match self {
            ShellDecl::Direct => ShellDecl::Direct,
            ShellDecl::Platform => ShellDecl::Platform,
            ShellDecl::Named(t) => ShellDecl::Named(t.duplicate()),
        }
    }

    /// The same declaration: the same switch, or a name with the same
    /// text, flavor and references.
    pub open spec fn same_spec(&self, other: ShellDecl) -> bool {
        match (*self, other) {
            (ShellDecl::Direct, ShellDecl::Direct) => true,
            (ShellDecl::Platform, ShellDecl::Platform) => true,
            (ShellDecl::Named(a), ShellDecl::Named(b)) => a.text == b.text && a.refs@ == b.refs@
                && a.interpolating == b.interpolating,
            _ => false,
        }
    }
}

/// A parsed `#!` line: the interpreter, and the single optional
/// argument the one-argument rule allows.
#[derive(Clone, PartialEq, Eq, Debug)]
pub struct Shebang {
    pub interpreter: String,
    pub arg: Option<String>,
}

/// The `#!` line of a body, if it has one: interpreter and argument.
/// The magic must be the first two chars; one trailing `\r` is
/// dropped; everything after the interpreter is ONE argument.
pub open spec fn shebang_spec(body: Seq<char>) -> Option<(Seq<char>, Option<Seq<char>>)> {
    if !starts_with(body, "#!"@) {
        None
    } else {
        let rest = body.subrange(2, body.len() as int);
        let line0 = rest.subrange(0, index_of_from(rest, '\n', 0));
        let line1 = if line0.len() > 0 && line0.last() == '\r' { line0.drop_last() } else { line0 };
        let line = trim_sp(line1);
        let at = sp_index_from(line, 0);
        let interpreter = line.subrange(0, at);
        let arg = if at < line.len() { trim_sp(line.subrange(at + 1, line.len() as int)) } else { seq![] };
        if interpreter.len() == 0 {
            None
        } else {
            Some((interpreter, if arg.len() == 0 { None } else { Some(arg) }))
        }
    }
}

proof fn lemma_index_upto(s: Seq<char>, c: char, i: int, p: int)
    requires
        0 <= i <= p < s.len(),
        s[p] == c,
        forall|j: int| i <= j < p ==> s[j] != c,
    ensures
        index_of_from(s, c, i) == p,
    decreases p - i,
{
    if i < p {
        lemma_index_upto(s, c, i + 1, p);
    }
}

proof fn lemma_sp_free(s: Seq<char>, i: int)
    requires
        0 <= i <= s.len(),
    ensures
        i <= sp_index_from(s, i) <= s.len(),
        forall|j: int| i <= j < sp_index_from(s, i) ==> !crate::text::is_sp(#[trigger] s[j]),
    decreases s.len() - i,
{
    if i < s.len() && !crate::text::is_sp(s[i]) {
        lemma_sp_free(s, i + 1);
    }
}

proof fn lemma_newline_free(s: Seq<char>, i: int)
    requires
        0 <= i <= s.len(),
    ensures
        i <= index_of_from(s, '\n', i) <= s.len(),
        forall|j: int| i <= j < index_of_from(s, '\n', i) ==> #[trigger] s[j] != '\n',
    decreases s.len() - i,
{
    if i < s.len() && s[i] != '\n' {
        lemma_newline_free(s, i + 1);
    }
}

proof fn lemma_trim_start_sub(s: Seq<char>)
    ensures
        exists|i: int| 0 <= i <= s.len() && crate::text::trim_sp_start(s) == s.subrange(i, s.len() as int),
        crate::text::trim_sp_start(s).len() > 0 ==> !crate::text::is_sp(crate::text::trim_sp_start(s)[0]),
    decreases s.len(),
{
    if s.len() > 0 && crate::text::is_sp(s[0]) {
        lemma_trim_start_sub(s.drop_first());
        let i = choose|i: int| 0 <= i <= s.drop_first().len() && crate::text::trim_sp_start(s.drop_first())
            == s.drop_first().subrange(i, s.drop_first().len() as int);
        assert(s.drop_first().subrange(i, s.drop_first().len() as int) =~= s.subrange(i + 1, s.len() as int));
    } else {
        assert(s.subrange(0, s.len() as int) =~= s);
    }
}

proof fn lemma_trim_end_sub(s: Seq<char>)
    ensures
        exists|j: int| 0 <= j <= s.len() && crate::text::trim_sp_end(s) == s.subrange(0, j),
        crate::text::trim_sp_end(s).len() > 0 ==> !crate::text::is_sp(crate::text::trim_sp_end(s).last()),
    decreases s.len(),
{
    if s.len() > 0 && crate::text::is_sp(s.last()) {
        lemma_trim_end_sub(s.drop_last());
        let j = choose|j: int| 0 <= j <= s.drop_last().len() && crate::text::trim_sp_end(s.drop_last()) == s.drop_last().subrange(0, j);
        assert(s.drop_last().subrange(0, j) =~= s.subrange(0, j));
    } else {
        assert(s.subrange(0, s.len() as int) =~= s);
    }
}

/// What `trim_sp` keeps is a run of the text, with no space or tab at
/// either end.
proof fn lemma_trim_sp(s: Seq<char>)
    ensures
        exists|i: int, j: int| 0 <= i <= j <= s.len() && trim_sp(s) == s.subrange(i, j),
        trim_sp(s).len() > 0 ==> !crate::text::is_sp(trim_sp(s)[0]) && !crate::text::is_sp(trim_sp(s).last()),
{
    let t = crate::text::trim_sp_start(s);
    lemma_trim_start_sub(s);
    lemma_trim_end_sub(t);
    let i = choose|i: int| 0 <= i <= s.len() && t == s.subrange(i, s.len() as int);
    let j = choose|j: int| 0 <= j <= t.len() && crate::text::trim_sp_end(t) == t.subrange(0, j);
    assert(t.subrange(0, j) =~= s.subrange(i, i + j));
    if trim_sp(s).len() > 0 {
        assert(trim_sp(s)[0] == t[0]);
    }
}

/// A body with a `#!` line starts with the magic and names a non-empty
/// interpreter holding no space, tab or newline; its argument, when it
/// has one, is non-empty, holds no newline, and has no space or tab at
/// either end.
pub proof fn law_shebang_names_an_interpreter(body: Seq<char>)
    ensures
        shebang_spec(body) matches Some((interp, arg)) ==> {
            &&& starts_with(body, "#!"@)
            &&& interp.len() > 0
            &&& forall|j: int| 0 <= j < interp.len() ==> !crate::text::is_sp(#[trigger] interp[j]) && interp[j] != '\n'
            &&& arg matches Some(a) ==> a.len() > 0 && !crate::text::is_sp(a[0]) && !crate::text::is_sp(a.last())
                && forall|j: int| 0 <= j < a.len() ==> #[trigger] a[j] != '\n'
        },
{
    if starts_with(body, "#!"@) {
        let rest = body.subrange(2, body.len() as int);
        lemma_newline_free(rest, 0);
        let line0 = rest.subrange(0, index_of_from(rest, '\n', 0));
        let line1 = if line0.len() > 0 && line0.last() == '\r' { line0.drop_last() } else { line0 };
        assert forall|j: int| 0 <= j < line1.len() implies #[trigger] line1[j] != '\n' by {
            assert(line1[j] == line0[j]);
            assert(line0[j] == rest[j]);
        }
        let line = trim_sp(line1);
        lemma_trim_sp(line1);
        let (li, lj) = choose|i: int, j: int| 0 <= i <= j <= line1.len() && trim_sp(line1) == line1.subrange(i, j);
        assert forall|j: int| 0 <= j < line.len() implies #[trigger] line[j] != '\n' by {
            assert(line[j] == line1[li + j]);
        }
        lemma_sp_free(line, 0);
        let at = sp_index_from(line, 0);
        if at < line.len() {
            let tail = line.subrange(at + 1, line.len() as int);
            lemma_trim_sp(tail);
            let (ti, tj) = choose|i: int, j: int| 0 <= i <= j <= tail.len() && trim_sp(tail) == tail.subrange(i, j);
            let a = trim_sp(tail);
            assert forall|j: int| 0 <= j < a.len() implies #[trigger] a[j] != '\n' by {
                assert(a[j] == tail[ti + j]);
                assert(tail[ti + j] == line[at + 1 + ti + j]);
            }
        }
    }
}

/// Only the first line of a body is read for its `#!` line: what
/// follows the first newline never changes it.
pub proof fn law_shebang_reads_the_first_line(first: Seq<char>, tail1: Seq<char>, tail2: Seq<char>)
    requires
        forall|i: int| 0 <= i < first.len() ==> first[i] != '\n',
    ensures
        shebang_spec(first + seq!['\n'] + tail1) == shebang_spec(first + seq!['\n'] + tail2),
{
    let b1 = first + seq!['\n'] + tail1;
    let b2 = first + seq!['\n'] + tail2;
    reveal_strlit("#!");
    if first.len() >= 2 {
        assert(b1.subrange(0, 2) =~= first.subrange(0, 2));
        assert(b2.subrange(0, 2) =~= first.subrange(0, 2));
        let r1 = b1.subrange(2, b1.len() as int);
        let r2 = b2.subrange(2, b2.len() as int);
        let p = first.len() - 2;
        assert(r1[p] == '\n');
        assert(r2[p] == '\n');
        assert forall|j: int| 0 <= j < p implies r1[j] != '\n' && r2[j] != '\n' by {
            assert(r1[j] == first[j + 2]);
            assert(r2[j] == first[j + 2]);
        }
        lemma_index_upto(r1, '\n', 0, p);
        lemma_index_upto(r2, '\n', 0, p);
        assert(r1.subrange(0, p) =~= r2.subrange(0, p));
    } else if first.len() == 1 {
        assert(b1[1] == '\n' && b2[1] == '\n');
        assert(!starts_with(b1, "#!"@)) by {
            if starts_with(b1, "#!"@) {
                assert(b1.subrange(0, 2)[1] == "#!"@[1]);
            }
        }
        assert(!starts_with(b2, "#!"@)) by {
            if starts_with(b2, "#!"@) {
                assert(b2.subrange(0, 2)[1] == "#!"@[1]);
            }
        }
    } else {
        assert(b1[0] == '\n' && b2[0] == '\n');
        assert(!starts_with(b1, "#!"@)) by {
            if starts_with(b1, "#!"@) {
                assert(b1.subrange(0, 2)[0] == "#!"@[0]);
            }
        }
        assert(!starts_with(b2, "#!"@)) by {
            if starts_with(b2, "#!"@) {
                assert(b2.subrange(0, 2)[0] == "#!"@[0]);
            }
        }
    }
}

/// The body's `#!` line, or `None` when it has none — which is not an
/// error but a route: the body runs through the pane's shell instead.
pub fn shebang(body: &str) -> (r: Option<Shebang>)
    ensures
        match shebang_spec(body@) {
            Some((interp, arg)) => r is Some && r->0.interpreter@ == interp && match arg {
                Some(a) => r->0.arg is Some && r->0.arg->0@ == a,
                None => r->0.arg is None,
            },
            None => r is None,
        },
{
    let v = chars_of(body);
    proof { reveal_strlit("#!"); }
    if !chars_start_with(v.as_slice(), "#!") {
        return None;
    }
    let rest = chars_from(v.as_slice(), 2);
    let nl = find_char_from(rest.as_slice(), '\n', 0);
    let line0 = chars_range(rest.as_slice(), 0, nl);
    let line1 = if line0.len() > 0 && line0[line0.len() - 1] == '\r' {
        chars_range(line0.as_slice(), 0, line0.len() - 1)
    } else {
        line0
    };
    proof {
        if line0@.len() > 0 && line0@.last() == '\r' {
            assert(line1@ =~= line0@.drop_last());
        }
    }
    let line = trim_sp_chars(line1.as_slice());
    let at = find_sp(line.as_slice());
    let interpreter = chars_range(line.as_slice(), 0, at);
    let arg = if at < line.len() {
        let tail = chars_from(line.as_slice(), at + 1);
        trim_sp_chars(tail.as_slice())
    } else {
        Vec::new()
    };
    proof {
        if !(at < line@.len()) {
            assert(arg@ =~= Seq::<char>::empty());
        }
    }
    if interpreter.len() == 0 {
        return None;
    }
    Some(Shebang {
        interpreter: string_of(interpreter.as_slice()),
        arg: if arg.len() == 0 { None } else { Some(string_of(arg.as_slice())) },
    })
}

} // verus!

verus! {

/// What one source runs: an argv (or a shell script string), or a
/// declared body that names its own interpreter.
#[derive(Clone, PartialEq, Eq, Debug)]
pub enum SourceProgram {
    /// argv under `Direct`; the single raw script string under any
    /// shell mode. Never empty: every constructor validates first.
    Argv(Vec<Template>),
    /// A `script` body.
    Script(Template),
}

/// What one source runs and how often — what every surface constructs.
#[derive(Clone, PartialEq, Eq, Debug)]
pub struct SourceSpec {
    pub id: String,
    pub program: SourceProgram,
    pub shell: ShellMode,
    /// `None`: no deadline of its own, triggers only.
    pub interval: Option<std::time::Duration>,
    pub triggers: Vec<TriggerSpec>,
    pub debounce: std::time::Duration,
    /// The child is long-lived: spawned once, its output shown as it arrives.
    pub live: bool,
}

#[derive(Copy, Clone, PartialEq, Eq, Debug, Structural)]
pub enum PaneWidth {
    Weight(u16),
    Cells(u16),
}

#[derive(Copy, Clone, PartialEq, Eq, Debug, Structural)]
pub enum Overflow {
    /// Dashboards lead with the headline: longer content drops its tail.
    KeepTop,
    /// A log tail keeps the bottom instead.
    KeepBottom,
}

impl Default for Overflow {
    fn default() -> (o: Overflow)
        ensures
            o is KeepTop,
    {
        Overflow::KeepTop
    }
}

/// The declared box a source paints into. Height is pinned: the
/// composed frame's row count is run-constant between view gestures.
#[derive(Clone, PartialEq, Eq, Debug)]
pub struct PaneBox {
    /// The finished box, borders and chrome included.
    pub height: u16,
    pub width: PaneWidth,
    pub overflow: Overflow,
    pub border: BorderPreset,
    pub padding: Sides,
    /// `None` renders the source's name.
    pub title: Option<String>,
    /// The faint cadence/freshness row, the last interior row.
    pub chrome: bool,
    /// Whether focus gestures may target this pane.
    pub focusable: bool,
    /// Whether this pane takes a line cursor.
    pub selectable: bool,
}

pub open spec fn min_int(a: int, b: int) -> int {
    if a <= b { a } else { b }
}

impl PaneBox {
    pub open spec fn edge_spec(&self) -> int {
        if self.border.draws_spec() { 1 } else { 0 }
    }

    /// Rows in `height` that are not the child's: both borders, the
    /// vertical padding, and the status row — saturating at `u16::MAX`.
    pub open spec fn frame_rows_spec(&self) -> int {
        min_int(2 * self.edge_spec() + min_int(self.padding.top + self.padding.bottom, u16::MAX as int)
            + (if self.chrome { 1int } else { 0int }), u16::MAX as int)
    }

    /// Cells that are not the child's: both borders and the horizontal padding.
    pub open spec fn frame_cols_spec(&self) -> int {
        min_int(2 * self.edge_spec() + min_int(self.padding.left + self.padding.right, u16::MAX as int),
            u16::MAX as int)
    }

    /// Rows and cells one border edge consumes.
    pub fn edge_cells(&self) -> (e: u16)
        ensures
            e as int == self.edge_spec(),
    {
        if self.border.draws() { 1 } else { 0 }
    }

    pub fn frame_rows(&self) -> (r: u16)
        ensures
            r as int == self.frame_rows_spec(),
    {
        let padding = self.padding.top.saturating_add(self.padding.bottom);
        let capped: u16 = if padding > u16::MAX as usize { u16::MAX } else { padding as u16 };
        let edges = self.edge_cells() * 2;
        edges.saturating_add(capped).saturating_add(if self.chrome { 1 } else { 0 })
    }

    pub fn frame_cols(&self) -> (c: u16)
        ensures
            c as int == self.frame_cols_spec(),
    {
        let padding = self.padding.left.saturating_add(self.padding.right);
        let capped: u16 = if padding > u16::MAX as usize { u16::MAX } else { padding as u16 };
        let edges = self.edge_cells() * 2;
        edges.saturating_add(capped)
    }
}

/// A vertical stack of rows; a row is one or more panes joined
/// horizontally.
#[derive(PartialEq, Eq, Debug)]
pub enum LayoutNode {
    Pane(SourceId),
    Row(Vec<LayoutNode>),
    Column(Vec<LayoutNode>),
}

impl Clone for LayoutNode {
    /// The same tree, node for node.
    fn clone(&self) -> (r: LayoutNode)
        decreases self,
    {
        match self {
            LayoutNode::Pane(id) => LayoutNode::Pane(*id),
            LayoutNode::Row(children) => LayoutNode::Row(clone_nodes(children)),
            LayoutNode::Column(children) => LayoutNode::Column(clone_nodes(children)),
        }
    }
}

/// A copy of a list of layout nodes, node for node.
fn clone_nodes(v: &Vec<LayoutNode>) -> (r: Vec<LayoutNode>)
    ensures
        r@.len() == v@.len(),
    decreases v,
{
    let mut r: Vec<LayoutNode> = Vec::new();
    let mut i: usize = 0;
    while i < v.len()
        invariant
            i <= v@.len(),
            r@.len() == i,
        decreases v@.len() - i,
    {
        r.push(v[i].clone());
        i = i + 1;
    }
    r
}

/// Where the dashboard's title comes from.
#[derive(Clone, PartialEq, Eq, Debug)]
pub enum TitleSource {
    NoTitle,
    Static(String),
    Pane {
        source: SourceId,
        /// What the role reads while the pane has not spoken.
        fallback: Option<String>,
    },
}

/// How drained outputs become one frame.
#[allow(inconsistent_fields)]
#[derive(Clone, PartialEq, Eq, Debug)]
pub enum Composition {
    /// The shipped compose — title, stdout, stderr. No geometry.
    Plain { title: Option<String> },
    /// Declared boxes composed by the layout tree.
    Panes { layout: LayoutNode, gap: usize, row_gap: usize, title: TitleSource },
}

/// One pane's resolved box for the current terminal width.
#[derive(Copy, Clone, PartialEq, Eq, Debug, Structural)]
pub struct PaneGeometry {
    /// The whole box.
    pub cells: u16,
    /// == `PaneBox::height`.
    pub rows: u16,
    /// Handed to the child as `RAT_WIDTH`.
    pub inner_cols: u16,
    /// Handed to the child as `RAT_HEIGHT`; excludes the chrome row.
    pub inner_rows: u16,
}

/// No pane shrinks below this floor.
pub const MIN_PANE_CELLS: u16 = 8;

} // verus!

verus! {

/// Every pane the layout places, in reading order: rows left to right,
/// columns top to bottom.
pub open spec fn layout_ids(node: LayoutNode) -> Seq<SourceId>
    decreases node,
{
    match node {
        LayoutNode::Pane(id) => seq![id],
        LayoutNode::Row(children) => children_ids(children@),
        LayoutNode::Column(children) => children_ids(children@),
    }
}

pub open spec fn children_ids(children: Seq<LayoutNode>) -> Seq<SourceId>
    decreases children,
{
    if children.len() == 0 {
        seq![]
    } else {
        children_ids(children.drop_last()) + layout_ids(children.last())
    }
}

/// Append every pane `node` places, in reading order.
pub fn flatten_into(node: &LayoutNode, out: &mut Vec<SourceId>)
    ensures
        final(out)@ == old(out)@ + layout_ids(*node),
    decreases node,
{
    match node {
        LayoutNode::Pane(id) => {
            out.push(*id);
        },
        LayoutNode::Row(children) => {
            flatten_children(children, out);
        },
        LayoutNode::Column(children) => {
            flatten_children(children, out);
        },
    }
}

fn flatten_children(children: &Vec<LayoutNode>, out: &mut Vec<SourceId>)
    ensures
        final(out)@ == old(out)@ + children_ids(children@),
    decreases children,
{
    let ghost start = out@;
    let mut i: usize = 0;
    while i < children.len()
        invariant
            i <= children@.len(),
            out@ == start + children_ids(children@.take(i as int)),
        decreases children@.len() - i,
    {
        assert(children@.take(i + 1).drop_last() =~= children@.take(i as int));
        assert(children@.take(i + 1).last() == children@[i as int]);
        let ghost before = out@;
        flatten_into(&children[i], out);
        i = i + 1;
        assert(out@ =~= start + children_ids(children@.take(i as int)));
    }
    assert(children@.take(children@.len() as int) =~= children@);
}

/// How many times `id` appears in `ids`.
pub open spec fn count_of(ids: Seq<SourceId>, id: usize) -> nat
    decreases ids.len(),
{
    if ids.len() == 0 {
        0
    } else {
        count_of(ids.drop_last(), id) + (if ids.last().0 == id { 1nat } else { 0nat })
    }
}

/// The first position from `k` on whose id is not below `n`, or the length.
pub open spec fn first_out_of_range(ids: Seq<SourceId>, n: usize, k: int) -> int
    decreases ids.len() - k,
{
    if k < 0 || k >= ids.len() {
        ids.len() as int
    } else if ids[k].0 >= n {
        k
    } else {
        first_out_of_range(ids, n, k + 1)
    }
}

/// The first pane from `i` on placed other than exactly once, or `n`.
pub open spec fn first_misplaced(ids: Seq<SourceId>, n: usize, i: int) -> int
    decreases n - i,
{
    if i < 0 || i >= n {
        n as int
    } else if count_of(ids, i as usize) != 1 {
        i
    } else {
        first_misplaced(ids, n, i + 1)
    }
}

/// The first pane from `i` on whose height its frame already fills, or the length.
pub open spec fn first_too_short(panes: Seq<PaneBox>, i: int) -> int
    decreases panes.len() - i,
{
    if i < 0 || i >= panes.len() {
        panes.len() as int
    } else if panes[i].height <= panes[i].frame_rows_spec() {
        i
    } else {
        first_too_short(panes, i + 1)
    }
}

/// Why a declaration cannot be built, worded as `Registry::panes`
/// reports it — or `None` when it can.
pub open spec fn panes_refusal(sources: Seq<SourceSpec>, panes: Seq<PaneBox>, layout: LayoutNode) -> Option<Seq<char>> {
    let n = sources.len();
    let ids = layout_ids(layout);
    if n != panes.len() {
        Some(decimal(n) + " sources declared but "@ + decimal(panes.len())
            + " panes: every source paints into exactly one pane"@)
    } else if first_out_of_range(ids, n as usize, 0) < ids.len() {
        Some("the layout places pane index "@ + decimal(ids[first_out_of_range(ids, n as usize, 0)].0 as nat)
            + ", but only "@ + decimal(n) + " panes are declared"@)
    } else if first_misplaced(ids, n as usize, 0) < n {
        let i = first_misplaced(ids, n as usize, 0);
        if count_of(ids, i as usize) == 0 {
            Some("pane "@ + debug_str(sources[i].id@) + " is declared but never placed in the layout"@)
        } else {
            Some("pane "@ + debug_str(sources[i].id@) + " is placed "@ + decimal(count_of(ids, i as usize))
                + " times in the layout; place it once"@)
        }
    } else if first_too_short(panes, 0) < n {
        let i = first_too_short(panes, 0);
        let frame = panes[i].frame_rows_spec();
        Some("pane "@ + debug_str(sources[i].id@) + " is "@ + decimal(panes[i].height as nat)
            + " rows tall, but its border, padding, and status row already take "@ + decimal(frame as nat)
            + ": give it at least "@ + decimal(min_int(frame + 1, u16::MAX as int) as nat))
    } else {
        None
    }
}

/// The whole declaration the loop runs. The index into `sources` and
/// `panes` IS the `SourceId`.
#[derive(Debug)]
pub struct Registry {
    sources: Vec<SourceSpec>,
    /// Empty under `Composition::Plain`: watch declares no box.
    panes: Vec<PaneBox>,
    composition: Composition,
    /// Load-time facts worth telling but not worth failing over.
    diagnostics: Vec<String>,
}

impl Registry {
    pub closed spec fn sources_spec(&self) -> Seq<SourceSpec> {
        self.sources@
    }

    pub closed spec fn panes_spec(&self) -> Seq<PaneBox> {
        self.panes@
    }

    pub closed spec fn composition_spec(&self) -> Composition {
        self.composition
    }

    pub closed spec fn diagnostics_spec(&self) -> Seq<String> {
        self.diagnostics@
    }

    /// The one-source constructor `rat watch` uses: no box.
    pub fn single(spec: SourceSpec, title: Option<String>) -> (r: Registry)
        ensures
            r.sources_spec() == seq![spec],
            r.panes_spec().len() == 0,
            r.composition_spec() == (Composition::Plain { title }),
            r.diagnostics_spec().len() == 0,
    {
        let mut sources = Vec::new();
        sources.push(spec);
        proof { assert(sources@ =~= seq![spec]); }
        Registry { sources, panes: Vec::new(), composition: Composition::Plain { title }, diagnostics: Vec::new() }
    }

    /// The N-pane constructor. Every way a declaration can be
    /// incoherent fails HERE, before a single child spawns: the
    /// sources and boxes must pair up, every pane is placed exactly
    /// once, the layout names no pane past the declared ones, and every
    /// box leaves the child at least one row.
    pub fn panes(
        sources: Vec<SourceSpec>,
        panes: Vec<PaneBox>,
        layout: LayoutNode,
        gap: usize,
        row_gap: usize,
    ) -> (r: Result<Registry, String>)
        ensures
            match panes_refusal(sources@, panes@, layout) {
                Some(m) => r is Err && r->Err_0@ == m,
                None => r is Ok && r->Ok_0.sources_spec() == sources@ && r->Ok_0.panes_spec() == panes@
                    && r->Ok_0.composition_spec() == (Composition::Panes {
                        layout,
                        gap,
                        row_gap,
                        title: TitleSource::NoTitle,
                    }) && r->Ok_0.diagnostics_spec().len() == 0,
            },
    {
        let n = sources.len();
        if n != panes.len() {
            let mut m = decimal_string(n as u64);
            m.append(" sources declared but ");
            let p = decimal_string(panes.len() as u64);
            m.append(p.as_str());
            m.append(" panes: every source paints into exactly one pane");
            return Err(m);
        }
        let mut ids: Vec<SourceId> = Vec::new();
        flatten_into(&layout, &mut ids);
        assert(ids@ =~= layout_ids(layout));
        let mut placed: Vec<usize> = Vec::new();
        let mut i: usize = 0;
        while i < n
            invariant
                i <= n,
                placed@.len() == i,
                forall|j: int| 0 <= j < i ==> placed@[j] == 0,
            decreases n - i,
        {
            placed.push(0);
            i = i + 1;
        }
        let mut k: usize = 0;
        while k < ids.len()
            invariant
                k <= ids@.len(),
                ids@ == layout_ids(layout),
                n == sources@.len(),
                n == panes@.len(),
                placed@.len() == n,
                first_out_of_range(ids@, n, 0) == first_out_of_range(ids@, n, k as int),
                forall|j: int| 0 <= j < n ==> placed@[j] == count_of(ids@.take(k as int), j as usize),
                forall|j: int| 0 <= j < n ==> placed@[j] <= k,
            decreases ids@.len() - k,
        {
            let id = ids[k].0;
            assert(ids@.take(k + 1).drop_last() =~= ids@.take(k as int));
            if id >= n {
                let mut m = String::from_str("the layout places pane index ");
                let a = decimal_string(id as u64);
                m.append(a.as_str());
                m.append(", but only ");
                let b = decimal_string(n as u64);
                m.append(b.as_str());
                m.append(" panes are declared");
                return Err(m);
            }
            let c = placed[id];
            placed.set(id, c + 1);
            k = k + 1;
        }
        assert(ids@.take(ids@.len() as int) =~= ids@);
        let mut i: usize = 0;
        while i < n
            invariant
                i <= n,
                ids@ == layout_ids(layout),
                n == sources@.len(),
                n == panes@.len(),
                placed@.len() == n,
                first_out_of_range(ids@, n, 0) == ids@.len(),
                forall|j: int| 0 <= j < n ==> placed@[j] == count_of(ids@, j as usize),
                first_misplaced(ids@, n, 0) == first_misplaced(ids@, n, i as int),
            decreases n - i,
        {
            let c = placed[i];
            if c == 0 {
                let mut m = String::from_str("pane ");
                let q = debug_quote(sources[i].id.as_str());
                m.append(q.as_str());
                m.append(" is declared but never placed in the layout");
                return Err(m);
            } else if c != 1 {
                let mut m = String::from_str("pane ");
                let q = debug_quote(sources[i].id.as_str());
                m.append(q.as_str());
                m.append(" is placed ");
                let t = decimal_string(c as u64);
                m.append(t.as_str());
                m.append(" times in the layout; place it once");
                return Err(m);
            }
            i = i + 1;
        }
        let mut i: usize = 0;
        while i < n
            invariant
                i <= n,
                n == sources@.len(),
                n == panes@.len(),
                ids@ == layout_ids(layout),
                first_out_of_range(ids@, n, 0) == ids@.len(),
                first_misplaced(ids@, n, 0) == n,
                first_too_short(panes@, 0) == first_too_short(panes@, i as int),
            decreases n - i,
        {
            let frame = panes[i].frame_rows();
            if panes[i].height <= frame {
                let mut m = String::from_str("pane ");
                let q = debug_quote(sources[i].id.as_str());
                m.append(q.as_str());
                m.append(" is ");
                let h = decimal_string(panes[i].height as u64);
                m.append(h.as_str());
                m.append(" rows tall, but its border, padding, and status row already take ");
                let f = decimal_string(frame as u64);
                m.append(f.as_str());
                m.append(": give it at least ");
                let g = decimal_string(frame.saturating_add(1) as u64);
                m.append(g.as_str());
                return Err(m);
            }
            i = i + 1;
        }
        Ok(Registry {
            sources,
            panes,
            composition: Composition::Panes { layout, gap, row_gap, title: TitleSource::NoTitle },
            diagnostics: Vec::new(),
        })
    }

    /// The dashboard-level title, applied after construction; a no-op
    /// under `Plain`, whose title arrives through its own constructor.
    pub fn with_title(self, title: TitleSource) -> (r: Registry)
        ensures
            r.sources_spec() == self.sources_spec(),
            r.panes_spec() == self.panes_spec(),
            r.diagnostics_spec() == self.diagnostics_spec(),
            r.composition_spec() == (match self.composition_spec() {
                Composition::Panes { layout, gap, row_gap, title: _ } => Composition::Panes { layout, gap, row_gap, title },
                plain => plain,
            }),
    {
        let Registry { sources, panes, composition, diagnostics } = self;
        let composition = match composition {
            Composition::Panes { layout, gap, row_gap, title: _ } => Composition::Panes { layout, gap, row_gap, title },
            plain => plain,
        };
        Registry { sources, panes, composition, diagnostics }
    }

    /// Load-time diagnostics, applied after construction like the title.
    pub fn with_diagnostics(self, diagnostics: Vec<String>) -> (r: Registry)
        ensures
            r.sources_spec() == self.sources_spec(),
            r.panes_spec() == self.panes_spec(),
            r.composition_spec() == self.composition_spec(),
            r.diagnostics_spec() == diagnostics@,
    {
        let Registry { sources, panes, composition, diagnostics: _ } = self;
        Registry { sources, panes, composition, diagnostics }
    }

    pub fn diagnostics(&self) -> (d: &[String])
        ensures
            d@ == self.diagnostics_spec(),
    {
        self.diagnostics.as_slice()
    }

    /// The dashboard's title source; `None` under `Plain`.
    pub fn title_source(&self) -> (t: Option<&TitleSource>)
        ensures
            match self.composition_spec() {
                Composition::Panes { title, .. } => t == Some(&title),
                Composition::Plain { .. } => t is None,
            },
    {
        match &self.composition {
            Composition::Panes { title, .. } => Some(title),
            Composition::Plain { .. } => None,
        }
    }

    pub fn len(&self) -> (n: usize)
        ensures
            n == self.sources_spec().len(),
    {
        self.sources.len()
    }

    pub fn is_empty(&self) -> (b: bool)
        ensures
            b == (self.sources_spec().len() == 0),
    {
        self.sources.len() == 0
    }

    /// Declaration order — the index IS the id, so this order is a contract.
    pub fn ids(&self) -> (v: Vec<SourceId>)
        ensures
            v@.len() == self.sources_spec().len(),
            forall|i: int| 0 <= i < v@.len() ==> #[trigger] v@[i] == SourceId(i as usize),
    {
        let mut v: Vec<SourceId> = Vec::new();
        let mut i: usize = 0;
        while i < self.sources.len()
            invariant
                i <= self.sources@.len(),
                v@.len() == i,
                forall|j: int| 0 <= j < i ==> #[trigger] v@[j] == SourceId(j as usize),
            decreases self.sources@.len() - i,
        {
            v.push(SourceId(i));
            i = i + 1;
        }
        v
    }

    pub fn spec(&self, id: SourceId) -> (s: &SourceSpec)
        requires
            id.0 < self.sources_spec().len(),
        ensures
            *s == self.sources_spec()[id.0 as int],
    {
        &self.sources[id.0]
    }

    pub fn pane(&self, id: SourceId) -> (p: Option<&PaneBox>)
        ensures
            id.0 < self.panes_spec().len() ==> p == Some(&self.panes_spec()[id.0 as int]),
            id.0 >= self.panes_spec().len() ==> p is None,
    {
        if id.0 < self.panes.len() {
            Some(&self.panes[id.0])
        } else {
            None
        }
    }

    pub fn composition(&self) -> (c: &Composition)
        ensures
            *c == self.composition_spec(),
    {
        &self.composition
    }
}

} // verus!

verus! {

/// A `Cells` pane's own cells, never below the floor; zero for a weighted one.
pub open spec fn declared_cells_spec(w: PaneWidth) -> nat {
    match w {
        PaneWidth::Cells(c) => if c < MIN_PANE_CELLS { MIN_PANE_CELLS as nat } else { c as nat },
        PaneWidth::Weight(_) => 0,
    }
}

/// A weighted pane's share; zero for a fixed one. Weight 0 reads as 1.
pub open spec fn declared_weight_spec(w: PaneWidth) -> nat {
    match w {
        PaneWidth::Weight(k) => if k < 1 { 1 } else { k as nat },
        PaneWidth::Cells(_) => 0,
    }
}

pub open spec fn sum_cells(ws: Seq<PaneWidth>) -> nat
    decreases ws.len(),
{
    if ws.len() == 0 { 0 } else { sum_cells(ws.drop_last()) + declared_cells_spec(ws.last()) }
}

pub open spec fn sum_weights(ws: Seq<PaneWidth>) -> nat
    decreases ws.len(),
{
    if ws.len() == 0 { 0 } else { sum_weights(ws.drop_last()) + declared_weight_spec(ws.last()) }
}

/// A pane's floored share before the leftover is handed out.
pub open spec fn base_share(w: PaneWidth, pool: nat, weights: nat) -> nat {
    match w {
        PaneWidth::Cells(_) => declared_cells_spec(w),
        PaneWidth::Weight(_) => if weights > 0 { pool * declared_weight_spec(w) / weights } else { 0 },
    }
}

pub open spec fn sum_nat(s: Seq<nat>) -> nat
    decreases s.len(),
{
    if s.len() == 0 { 0 } else { sum_nat(s.drop_last()) + s.last() }
}

/// The leftover cells, one each, to the weighted panes from the left.
pub open spec fn hand_out(ws: Seq<PaneWidth>, shares: Seq<nat>, leftover: nat) -> Seq<nat>
    decreases ws.len(),
{
    if ws.len() == 0 || shares.len() == 0 {
        seq![]
    } else if leftover > 0 && ws[0] is Weight {
        seq![shares[0] + 1] + hand_out(ws.drop_first(), shares.drop_first(), (leftover - 1) as nat)
    } else {
        seq![shares[0]] + hand_out(ws.drop_first(), shares.drop_first(), leftover)
    }
}

pub open spec fn sat_sub(a: int, b: int) -> nat {
    if a > b { (a - b) as nat } else { 0 }
}

pub open spec fn clamp_cells(c: nat) -> u16 {
    if c < MIN_PANE_CELLS { MIN_PANE_CELLS } else if c > u16::MAX { u16::MAX } else { c as u16 }
}

/// The row's shares before the floor and the `u16` ceiling are applied.
pub open spec fn row_shares_spec(total: u16, gap: usize, ws: Seq<PaneWidth>) -> Seq<nat> {
    let gaps = min_int(gap * (ws.len() - 1), usize::MAX as int);
    let usable = sat_sub(total as int, gaps);
    let fixed = sum_cells(ws);
    let weights = sum_weights(ws);
    let pool = sat_sub(usable as int, fixed as int);
    let shares = ws.map_values(|w: PaneWidth| base_share(w, pool, weights));
    let leftover = sat_sub(usable as int, sum_nat(shares) as int);
    hand_out(ws, shares, leftover)
}

/// Split a row's cells: `Cells` panes take their own, the remainder is
/// shared by weight, flooring leftovers go left to right, and nothing
/// ends below [`MIN_PANE_CELLS`].
pub open spec fn row_cells_spec(total: u16, gap: usize, ws: Seq<PaneWidth>) -> Seq<u16> {
    if ws.len() == 0 {
        seq![]
    } else {
        row_shares_spec(total, gap, ws).map_values(|c: nat| clamp_cells(c))
    }
}

fn declared_cells(width: PaneWidth) -> (c: usize)
    ensures
        c as nat == declared_cells_spec(width),
{
    match width {
        PaneWidth::Cells(c) => if c < MIN_PANE_CELLS { MIN_PANE_CELLS as usize } else { c as usize },
        PaneWidth::Weight(_) => 0,
    }
}

fn declared_weight(width: PaneWidth) -> (k: usize)
    ensures
        k as nat == declared_weight_spec(width),
{
    match width {
        PaneWidth::Weight(k) => if k < 1 { 1 } else { k as usize },
        PaneWidth::Cells(_) => 0,
    }
}

proof fn lemma_sums_bounded(ws: Seq<PaneWidth>)
    ensures
        sum_cells(ws) <= ws.len() * 65535,
        sum_weights(ws) <= ws.len() * 65535,
    decreases ws.len(),
{
    if ws.len() > 0 {
        lemma_sums_bounded(ws.drop_last());
    }
}

proof fn lemma_hand_out_len(ws: Seq<PaneWidth>, shares: Seq<nat>, leftover: nat)
    requires
        ws.len() == shares.len(),
    ensures
        hand_out(ws, shares, leftover).len() == ws.len(),
    decreases ws.len(),
{
    if ws.len() > 0 {
        lemma_hand_out_len(ws.drop_first(), shares.drop_first(), if leftover > 0 && ws[0] is Weight { (leftover - 1) as nat } else { leftover });
    }
}

/// Split a row's cells among its panes by their declared widths.
pub fn allocate_row(total: u16, gap: usize, widths: &[PaneWidth]) -> (cells: Vec<u16>)
    requires
        widths@.len() * 65535 <= usize::MAX,
    ensures
        cells@ == row_cells_spec(total, gap, widths@),
{
    if widths.len() == 0 {
        return Vec::new();
    }
    let k = widths.len() - 1;
    let gaps: usize = if k == 0 {
        0
    } else if gap > usize::MAX / k {
        proof {
            assert(gap * k > usize::MAX) by (nonlinear_arith)
                requires gap > usize::MAX / k, k > 0;
        }
        usize::MAX
    } else {
        proof {
            assert(gap * k <= usize::MAX) by (nonlinear_arith)
                requires gap <= usize::MAX / k, k > 0;
        }
        gap * k
    };
    let usable = (total as usize).saturating_sub(gaps);
    let ghost ws = widths@;
    proof { lemma_sums_bounded(ws); }
    let mut fixed: usize = 0;
    let mut weights: usize = 0;
    let mut i: usize = 0;
    while i < widths.len()
        invariant
            i <= ws.len(),
            ws == widths@,
            ws.len() * 65535 <= usize::MAX,
            fixed as nat == sum_cells(ws.take(i as int)),
            weights as nat == sum_weights(ws.take(i as int)),
        decreases ws.len() - i,
    {
        assert(ws.take(i + 1).drop_last() =~= ws.take(i as int));
        proof { lemma_sums_bounded(ws.take(i + 1)); }
        fixed = fixed + declared_cells(widths[i]);
        weights = weights + declared_weight(widths[i]);
        i = i + 1;
    }
    assert(ws.take(ws.len() as int) =~= ws);
    let pool = usable.saturating_sub(fixed);
    let ghost shares_spec = ws.map_values(|w: PaneWidth| base_share(w, pool as nat, weights as nat));
    let mut shares: Vec<usize> = Vec::new();
    let mut spent: usize = 0;
    let mut i: usize = 0;
    while i < widths.len()
        invariant
            i <= ws.len(),
            ws == widths@,
            pool <= 65535,
            weights as nat == sum_weights(ws),
            ws.len() * 65535 <= usize::MAX,
            shares_spec == ws.map_values(|w: PaneWidth| base_share(w, pool as nat, weights as nat)),
            shares@.len() == i,
            forall|j: int| 0 <= j < i ==> shares@[j] as nat == shares_spec[j],
            forall|j: int| 0 <= j < i ==> shares@[j] <= 65535,
            spent as nat == sum_nat(shares_spec.take(i as int)),
            spent <= i * 65535,
        decreases ws.len() - i,
    {
        let w = widths[i];
        proof {
            if w is Weight {
                lemma_weight_in_sum(ws, i as int);
            }
        }
        let share: usize = match w {
            PaneWidth::Cells(_) => declared_cells(w),
            PaneWidth::Weight(_) => if weights > 0 {
                let dw = declared_weight(w);
                proof {
                    assert(pool * dw <= 65535 * 65535) by (nonlinear_arith)
                        requires pool <= 65535, dw <= 65535;
                    assert((pool as int * dw as int) / (weights as int) <= pool as int) by (nonlinear_arith)
                        requires weights as int >= dw as int, dw as int >= 1, pool as int >= 0;
                }
                pool * dw / weights
            } else {
                0
            },
        };
        assert(shares_spec.take(i + 1).drop_last() =~= shares_spec.take(i as int));
        shares.push(share);
        spent = spent + share;
        i = i + 1;
    }
    assert(shares_spec.take(ws.len() as int) =~= shares_spec);
    let mut leftover = usable.saturating_sub(spent);
    let ghost handed = hand_out(ws, shares_spec, leftover as nat);
    proof {
        lemma_hand_out_len(ws, shares_spec, leftover as nat);
        assert(ws.subrange(0, ws.len() as int) =~= ws);
        assert(shares_spec.subrange(0, ws.len() as int) =~= shares_spec);
    }
    let ghost mut unclamped: Seq<nat> = seq![];
    let mut cells: Vec<u16> = Vec::new();
    let mut i: usize = 0;
    while i < widths.len()
        invariant
            i <= ws.len(),
            ws == widths@,
            shares@.len() == ws.len(),
            shares_spec.len() == ws.len(),
            forall|j: int| 0 <= j < ws.len() ==> shares@[j] as nat == shares_spec[j],
            forall|j: int| 0 <= j < ws.len() ==> shares@[j] <= 65535,
            handed == unclamped + hand_out(ws.subrange(i as int, ws.len() as int),
                shares_spec.subrange(i as int, ws.len() as int), leftover as nat),
            cells@ == unclamped.map_values(|c: nat| clamp_cells(c)),
        decreases ws.len() - i,
    {
        let w = widths[i];
        let mut c = shares[i];
        let ghost rest_w = ws.subrange(i as int, ws.len() as int);
        let ghost rest_s = shares_spec.subrange(i as int, ws.len() as int);
        assert(rest_w[0] == w);
        assert(rest_s[0] == shares_spec[i as int]);
        assert(rest_w.drop_first() =~= ws.subrange(i + 1, ws.len() as int));
        assert(rest_s.drop_first() =~= shares_spec.subrange(i + 1, ws.len() as int));
        if leftover > 0 && matches!(w, PaneWidth::Weight(_)) {
            c = c + 1;
            leftover = leftover - 1;
        }
        let clamped: u16 = if c < MIN_PANE_CELLS as usize {
            MIN_PANE_CELLS
        } else if c > u16::MAX as usize {
            u16::MAX
        } else {
            c as u16
        };
        proof {
            let before = unclamped;
            unclamped = unclamped.push(c as nat);
            assert(handed =~= unclamped + hand_out(ws.subrange(i + 1, ws.len() as int),
                shares_spec.subrange(i + 1, ws.len() as int), leftover as nat));
        }
        cells.push(clamped);
        proof {
            assert(cells@ =~= unclamped.map_values(|c: nat| clamp_cells(c)));
        }
        i = i + 1;
    }
    proof {
        assert(hand_out(ws.subrange(ws.len() as int, ws.len() as int),
            shares_spec.subrange(ws.len() as int, ws.len() as int), leftover as nat) =~= Seq::<nat>::empty());
        assert(unclamped =~= handed);
    }
    cells
}

/// Each weighted pane's share is part of the row's total weight.
proof fn lemma_weight_in_sum(ws: Seq<PaneWidth>, i: int)
    requires
        0 <= i < ws.len(),
    ensures
        declared_weight_spec(ws[i]) <= sum_weights(ws),
    decreases ws.len(),
{
    if i < ws.len() - 1 {
        lemma_weight_in_sum(ws.drop_last(), i);
    }
}

} // verus!

verus! {

/// One pane's geometry when its parent hands it `cells` columns:
/// `Cells` is exact everywhere, `Weight` takes what it was given.
pub open spec fn pane_geometry_spec(pane: PaneBox, cells: u16) -> PaneGeometry {
    let c: u16 = match pane.width {
        PaneWidth::Cells(x) => if x < MIN_PANE_CELLS { MIN_PANE_CELLS } else { x },
        PaneWidth::Weight(_) => cells,
    };
    PaneGeometry {
        cells: c,
        rows: pane.height,
        inner_cols: sat_sub(c as int, pane.frame_cols_spec()) as u16,
        inner_rows: sat_sub(pane.height as int, pane.frame_rows_spec()) as u16,
    }
}

/// The width a node declares inside a row: a pane's own, else one share.
pub open spec fn width_of_spec(panes: Seq<PaneBox>, node: LayoutNode) -> PaneWidth {
    match node {
        LayoutNode::Pane(id) => if id.0 < panes.len() { panes[id.0 as int].width } else { PaneWidth::Weight(1) },
        _ => PaneWidth::Weight(1),
    }
}

/// Every row in the tree is small enough that its width sums cannot
/// overflow a `usize`.
pub open spec fn rows_fit(node: LayoutNode) -> bool
    decreases node,
{
    match node {
        LayoutNode::Pane(_) => true,
        LayoutNode::Row(children) => children@.len() * 65535 <= usize::MAX && children_fit(children@),
        LayoutNode::Column(children) => children_fit(children@),
    }
}

pub open spec fn children_fit(children: Seq<LayoutNode>) -> bool
    decreases children,
{
    children.len() == 0 || (children_fit(children.drop_last()) && rows_fit(children.last()))
}

/// The geometry table after `node` has been laid out in `cells` columns.
pub open spec fn alloc_spec(node: LayoutNode, cells: u16, gap: usize, panes: Seq<PaneBox>, out: Seq<PaneGeometry>) -> Seq<PaneGeometry>
    decreases node, 0nat,
{
    match node {
        LayoutNode::Pane(id) => if id.0 < panes.len() && id.0 < out.len() {
            out.update(id.0 as int, pane_geometry_spec(panes[id.0 as int], cells))
        } else {
            out
        },
        LayoutNode::Column(children) => alloc_children(children@, Seq::new(children@.len(), |i: int| cells), gap, panes, out),
        LayoutNode::Row(children) => alloc_children(children@,
            row_cells_spec(cells, gap, children@.map_values(|c: LayoutNode| width_of_spec(panes, c))), gap, panes, out),
    }
}

/// Lay out `children` in order, child `i` in `shares[i]` columns.
pub open spec fn alloc_children(children: Seq<LayoutNode>, shares: Seq<u16>, gap: usize, panes: Seq<PaneBox>, out: Seq<PaneGeometry>) -> Seq<PaneGeometry>
    decreases children, 1nat,
{
    if children.len() == 0 || shares.len() < children.len() {
        out
    } else {
        alloc_spec(children.last(), shares[children.len() - 1], gap, panes,
            alloc_children(children.drop_last(), shares, gap, panes, out))
    }
}

proof fn lemma_alloc_len(node: LayoutNode, cells: u16, gap: usize, panes: Seq<PaneBox>, out: Seq<PaneGeometry>)
    ensures
        alloc_spec(node, cells, gap, panes, out).len() == out.len(),
    decreases node, 0nat,
{
    match node {
        LayoutNode::Pane(_) => {},
        LayoutNode::Column(children) => {
            assert(decreases_to!(node => children));
            lemma_alloc_children_len(children@, Seq::new(children@.len(), |i: int| cells), gap, panes, out);
        },
        LayoutNode::Row(children) => {
            assert(decreases_to!(node => children));
            lemma_alloc_children_len(children@, row_cells_spec(cells, gap, children@.map_values(|c: LayoutNode| width_of_spec(panes, c))),
                gap, panes, out);
        },
    }
}

proof fn lemma_alloc_children_len(children: Seq<LayoutNode>, shares: Seq<u16>, gap: usize, panes: Seq<PaneBox>, out: Seq<PaneGeometry>)
    ensures
        alloc_children(children, shares, gap, panes, out).len() == out.len(),
    decreases children, 1nat,
{
    if children.len() > 0 && shares.len() >= children.len() {
        lemma_alloc_children_len(children.drop_last(), shares, gap, panes, out);
        lemma_alloc_len(children.last(), shares[children.len() - 1], gap, panes,
            alloc_children(children.drop_last(), shares, gap, panes, out));
    }
}

/// Per-pane geometry for a terminal size with `reserved` columns held
/// back: the terminal size for every pane of a plain composition, the
/// width allocation of the rest for a composition of panes.
pub open spec fn geometry_outcome(reg: Registry, size: (u16, u16), reserved: u16) -> Seq<PaneGeometry> {
    match reg.composition_spec() {
        Composition::Plain { .. } => Seq::new(reg.sources_spec().len(),
            |i: int| PaneGeometry { cells: size.0, rows: size.1, inner_cols: size.0, inner_rows: size.1 }),
        Composition::Panes { layout, gap, .. } => alloc_spec(layout, sat_sub(size.0 as int, reserved as int) as u16,
            gap, reg.panes_spec(), Seq::new(reg.sources_spec().len(),
            |i: int| PaneGeometry { cells: 0, rows: 0, inner_cols: 0, inner_rows: 0 })),
    }
}

/// A reservation comes out of the panes' width budget and nowhere
/// else: under panes it is the same as a narrower terminal with none
/// reserved, and a plain composition ignores it.
pub proof fn law_reservation_narrows_the_width(reg: Registry, size: (u16, u16), reserved: u16)
    ensures
        geometry_outcome(reg, size, reserved).len() == reg.sources_spec().len(),
        reg.composition_spec() is Plain ==> geometry_outcome(reg, size, reserved) == geometry_outcome(reg, size, 0),
        reg.composition_spec() is Panes ==> geometry_outcome(reg, size, reserved) == geometry_outcome(
            reg,
            (sat_sub(size.0 as int, reserved as int) as u16, size.1),
            0,
        ),
{
    let narrowed = sat_sub(size.0 as int, reserved as int);
    assert(0 <= narrowed <= size.0);
    if let Composition::Panes { layout, gap, .. } = reg.composition_spec() {
        lemma_alloc_len(layout, narrowed as u16, gap, reg.panes_spec(), Seq::new(reg.sources_spec().len(),
            |i: int| PaneGeometry { cells: 0, rows: 0, inner_cols: 0, inner_rows: 0 }));
    }
    assert(sat_sub(narrowed as u16 as int, 0) == narrowed);
}

impl Registry {
    fn width_of(&self, node: &LayoutNode) -> (w: PaneWidth)
        ensures
            w == width_of_spec(self.panes@, *node),
    {
        match node {
            LayoutNode::Pane(id) => if id.0 < self.panes.len() { self.panes[id.0].width } else { PaneWidth::Weight(1) },
            _ => PaneWidth::Weight(1),
        }
    }

    fn allocate(&self, node: &LayoutNode, cells: u16, gap: usize, out: &mut Vec<PaneGeometry>)
        requires
            rows_fit(*node),
        ensures
            final(out)@ == alloc_spec(*node, cells, gap, self.panes@, old(out)@),
        decreases node, 0nat,
    {
        match node {
            LayoutNode::Pane(id) => {
                if id.0 < self.panes.len() && id.0 < out.len() {
                    let pane = &self.panes[id.0];
                    let c: u16 = match pane.width {
                        PaneWidth::Cells(x) => if x < MIN_PANE_CELLS { MIN_PANE_CELLS } else { x },
                        PaneWidth::Weight(_) => cells,
                    };
                    let g = PaneGeometry {
                        cells: c,
                        rows: pane.height,
                        inner_cols: c.saturating_sub(pane.frame_cols()),
                        inner_rows: pane.height.saturating_sub(pane.frame_rows()),
                    };
                    out.set(id.0, g);
                }
            },
            LayoutNode::Column(children) => {
                let mut shares: Vec<u16> = Vec::new();
                let mut i: usize = 0;
                while i < children.len()
                    invariant
                        i <= children@.len(),
                        shares@ == Seq::new(i as nat, |k: int| cells),
                    decreases children@.len() - i,
                {
                    shares.push(cells);
                    i = i + 1;
                    assert(shares@ =~= Seq::new(i as nat, |k: int| cells));
                }
                self.allocate_children(children, &shares, gap, out);
            },
            LayoutNode::Row(children) => {
                let mut widths: Vec<PaneWidth> = Vec::new();
                let mut i: usize = 0;
                while i < children.len()
                    invariant
                        i <= children@.len(),
                        widths@ == children@.take(i as int).map_values(|c: LayoutNode| width_of_spec(self.panes@, c)),
                    decreases children@.len() - i,
                {
                    widths.push(self.width_of(&children[i]));
                    i = i + 1;
                    assert(widths@ =~= children@.take(i as int).map_values(|c: LayoutNode| width_of_spec(self.panes@, c)));
                }
                assert(children@.take(children@.len() as int) =~= children@);
                let shares = allocate_row(cells, gap, widths.as_slice());
                self.allocate_children(children, &shares, gap, out);
            },
        }
    }

    fn allocate_children(&self, children: &Vec<LayoutNode>, shares: &Vec<u16>, gap: usize, out: &mut Vec<PaneGeometry>)
        requires
            children_fit(children@),
        ensures
            final(out)@ == alloc_children(children@, shares@, gap, self.panes@, old(out)@),
        decreases children, 1nat,
    {
        let ghost start = old(out)@;
        if shares.len() < children.len() {
            return;
        }
        let mut i: usize = 0;
        while i < children.len()
            invariant
                i <= children@.len() <= shares@.len(),
                children_fit(children@),
                out@ == alloc_children(children@.take(i as int), shares@, gap, self.panes@, start),
            decreases children@.len() - i,
        {
            proof {
                assert(children@.take(i + 1).drop_last() =~= children@.take(i as int));
                assert(children@.take(i + 1).last() == children@[i as int]);
                lemma_children_fit_each(children@, i as int);
            }
            self.allocate(&children[i], shares[i], gap, out);
            i = i + 1;
        }
        assert(children@.take(children@.len() as int) =~= children@);
    }

    /// Per-pane geometry for one terminal size, with `reserved` columns
    /// held back from the width budget. Under `Plain` every entry is the
    /// terminal size itself and the reservation does not apply.
    pub fn geometry_reserving(&self, size: (u16, u16), reserved: u16) -> (g: Vec<PaneGeometry>)
        requires
            self.composition_spec() matches Composition::Panes { layout, .. } ==> rows_fit(layout),
        ensures
            g@ == geometry_outcome(*self, size, reserved),
            g@.len() == self.sources_spec().len(),
    {
        let n = self.sources.len();
        let fill = match &self.composition {
            Composition::Plain { .. } => PaneGeometry { cells: size.0, rows: size.1, inner_cols: size.0, inner_rows: size.1 },
            Composition::Panes { .. } => PaneGeometry { cells: 0, rows: 0, inner_cols: 0, inner_rows: 0 },
        };
        let mut out: Vec<PaneGeometry> = Vec::new();
        let mut i: usize = 0;
        while i < n
            invariant
                i <= n,
                n == self.sources@.len(),
                out@ == Seq::new(i as nat, |k: int| fill),
            decreases n - i,
        {
            out.push(fill);
            i = i + 1;
            assert(out@ =~= Seq::new(i as nat, |k: int| fill));
        }
        match &self.composition {
            Composition::Plain { .. } => {},
            Composition::Panes { layout, gap, .. } => {
                self.allocate(layout, size.0.saturating_sub(reserved), *gap, &mut out);
            },
        }
        proof {
            law_reservation_narrows_the_width(*self, size, reserved);
        }
        out
    }

    /// `geometry_reserving(size, 0)`.
    pub fn geometry(&self, size: (u16, u16)) -> (g: Vec<PaneGeometry>)
        requires
            self.composition_spec() matches Composition::Panes { layout, .. } ==> rows_fit(layout),
        ensures
            match self.composition_spec() {
                Composition::Plain { .. } => g@ == Seq::new(self.sources_spec().len(),
                    |i: int| PaneGeometry { cells: size.0, rows: size.1, inner_cols: size.0, inner_rows: size.1 }),
                Composition::Panes { layout, gap, .. } => g@ == alloc_spec(layout, size.0, gap, self.panes_spec(),
                    Seq::new(self.sources_spec().len(), |i: int| PaneGeometry { cells: 0, rows: 0, inner_cols: 0, inner_rows: 0 })),
            },
    {
        self.geometry_reserving(size, 0)
    }
}

proof fn lemma_children_fit_each(children: Seq<LayoutNode>, i: int)
    requires
        children_fit(children),
        0 <= i < children.len(),
    ensures
        rows_fit(children[i]),
    decreases children.len(),
{
    if i < children.len() - 1 {
        lemma_children_fit_each(children.drop_last(), i);
    }
}

} // verus!

verus! {

/// The cells a row has for its panes once the gaps are taken out.
pub open spec fn row_usable(total: u16, gap: usize, ws: Seq<PaneWidth>) -> nat {
    sat_sub(total as int, min_int(gap * (ws.len() - 1), usize::MAX as int))
}

/// How many panes of the row share by weight.
pub open spec fn count_weighted(ws: Seq<PaneWidth>) -> nat
    decreases ws.len(),
{
    if ws.len() == 0 { 0 } else { count_weighted(ws.drop_last()) + if ws.last() is Weight { 1nat } else { 0nat } }
}

proof fn lemma_count_first(ws: Seq<PaneWidth>)
    requires
        ws.len() > 0,
    ensures
        count_weighted(ws) == (if ws[0] is Weight { 1nat } else { 0nat }) + count_weighted(ws.drop_first()),
    decreases ws.len(),
{
    if ws.len() == 1 {
        assert(ws.drop_first() =~= Seq::<PaneWidth>::empty());
        assert(ws.drop_last() =~= Seq::<PaneWidth>::empty());
    } else {
        lemma_count_first(ws.drop_last());
        assert(ws.drop_last().drop_first() =~= ws.drop_first().drop_last());
        assert(ws.drop_first().last() == ws.last());
    }
}

proof fn lemma_sum_nat_first(s: Seq<nat>)
    requires
        s.len() > 0,
    ensures
        sum_nat(s) == s[0] + sum_nat(s.drop_first()),
    decreases s.len(),
{
    if s.len() == 1 {
        assert(s.drop_first() =~= Seq::<nat>::empty());
        assert(s.drop_last() =~= Seq::<nat>::empty());
    } else {
        lemma_sum_nat_first(s.drop_last());
        assert(s.drop_last().drop_first() =~= s.drop_first().drop_last());
        assert(s.drop_first().last() == s.last());
    }
}

/// Handing out the leftover adds one cell to each of the first
/// `leftover` weighted panes — all of it, when there are enough of them.
proof fn lemma_hand_out_sum(ws: Seq<PaneWidth>, shares: Seq<nat>, leftover: nat)
    requires
        ws.len() == shares.len(),
    ensures
        sum_nat(hand_out(ws, shares, leftover)) == sum_nat(shares) + min_int(leftover as int, count_weighted(ws) as int),
    decreases ws.len(),
{
    if ws.len() == 0 {
        assert(hand_out(ws, shares, leftover) =~= Seq::<nat>::empty());
    } else {
        let give = leftover > 0 && ws[0] is Weight;
        let rest_left: nat = if give { (leftover - 1) as nat } else { leftover };
        lemma_hand_out_sum(ws.drop_first(), shares.drop_first(), rest_left);
        lemma_count_first(ws);
        lemma_sum_nat_first(shares);
        let head: nat = if give { shares[0] + 1 } else { shares[0] };
        let out = hand_out(ws, shares, leftover);
        let tail = hand_out(ws.drop_first(), shares.drop_first(), rest_left);
        assert(out == seq![head] + tail);
        lemma_hand_out_len(ws.drop_first(), shares.drop_first(), rest_left);
        lemma_sum_nat_first(out);
        assert(out.drop_first() =~= tail);
    }
}

/// Each floored weighted share loses less than one cell to rounding.
proof fn lemma_floor_bounds(ws: Seq<PaneWidth>, pool: nat, weights: nat)
    requires
        weights > 0,
    ensures
        sum_nat(ws.map_values(|w: PaneWidth| base_share(w, pool, weights))) >= sum_cells(ws),
        weights * (sum_nat(ws.map_values(|w: PaneWidth| base_share(w, pool, weights))) - sum_cells(ws)) <= pool
            * sum_weights(ws),
        weights * (sum_nat(ws.map_values(|w: PaneWidth| base_share(w, pool, weights))) - sum_cells(ws)) + (weights
            - 1) * count_weighted(ws) >= pool * sum_weights(ws),
        sum_weights(ws) > 0 ==> count_weighted(ws) > 0,
    decreases ws.len(),
{
    let s = ws.map_values(|w: PaneWidth| base_share(w, pool, weights));
    if ws.len() > 0 {
        let init = ws.drop_last();
        lemma_floor_bounds(init, pool, weights);
        assert(s.drop_last() =~= init.map_values(|w: PaneWidth| base_share(w, pool, weights)));
        let w = ws.last();
        assert(s.last() == base_share(w, pool, weights));
        let f0: int = sum_nat(init.map_values(|w: PaneWidth| base_share(w, pool, weights))) - sum_cells(init);
        let f: int = sum_nat(s) - sum_cells(ws);
        let k = declared_weight_spec(w);
        let sw0 = sum_weights(init);
        let sw = sum_weights(ws);
        let c0 = count_weighted(init);
        let c = count_weighted(ws);
        assert(sum_nat(s) == sum_nat(s.drop_last()) + s.last());
        assert(sw == sw0 + k);
        assert(pool * sw == pool * sw0 + pool * k) by (nonlinear_arith)
            requires
                sw == sw0 + k,
        ;
        if w is Weight {
            let q = pool * k / weights;
            assert(s.last() == q);
            assert(f == f0 + q);
            assert(c == c0 + 1);
            assert(q * weights <= pool * k && q * weights + (weights - 1) >= pool * k) by (nonlinear_arith)
                requires
                    q == pool * k / weights,
                    weights > 0,
                    pool * k >= 0,
            ;
            assert(weights * f == weights * f0 + q * weights) by (nonlinear_arith)
                requires
                    f == f0 + q,
            ;
            assert((weights - 1) * c == (weights - 1) * c0 + (weights - 1)) by (nonlinear_arith)
                requires
                    c == c0 + 1,
            ;
            assert(weights * f <= pool * sw);
            assert(weights * f + (weights - 1) * c >= pool * sw);
        } else {
            assert(k == 0);
            assert(f == f0);
            assert(c == c0);
            assert(weights * f <= pool * sw);
            assert(weights * f + (weights - 1) * c >= pool * sw);
        }
    } else {
        assert(sum_nat(s) == 0);
        assert(sum_cells(ws) == 0);
        assert(sum_weights(ws) == 0);
        assert(count_weighted(ws) == 0);
        assert(weights * 0 <= pool * 0) by (nonlinear_arith);
        assert(weights * (sum_nat(s) - sum_cells(ws)) <= pool * sum_weights(ws));
        assert(weights * (sum_nat(s) - sum_cells(ws)) + (weights - 1) * count_weighted(ws) >= pool * sum_weights(ws));
    }
}

/// Before the floor is applied, a row with a weighted pane spends every
/// usable cell: the shares add up to the width less the gaps, so no cell
/// is lost to rounding — whenever the fixed panes leave room to share.
pub proof fn law_row_accounts_for_every_cell(total: u16, gap: usize, ws: Seq<PaneWidth>)
    requires
        sum_weights(ws) > 0,
        sum_cells(ws) <= row_usable(total, gap, ws),
    ensures
        sum_nat(row_shares_spec(total, gap, ws)) == row_usable(total, gap, ws),
{
    let usable = row_usable(total, gap, ws);
    let fixed = sum_cells(ws);
    let weights = sum_weights(ws);
    let pool = sat_sub(usable as int, fixed as int);
    let shares = ws.map_values(|w: PaneWidth| base_share(w, pool, weights));
    lemma_floor_bounds(ws, pool, weights);
    let f = sum_nat(shares) - fixed;
    let c = count_weighted(ws);
    assert(pool == usable - fixed);
    assert(f <= pool) by (nonlinear_arith)
        requires
            weights * f <= pool * weights,
            weights > 0,
    ;
    assert(pool - f < c) by (nonlinear_arith)
        requires
            weights * f + (weights - 1) * c >= pool * weights,
            weights > 0,
            c > 0,
    ;
    let leftover = sat_sub(usable as int, sum_nat(shares) as int);
    assert(leftover == pool - f);
    lemma_hand_out_sum(ws, shares, leftover);
}

} // verus!

verus! {

proof fn lemma_none_out_of_range(ids: Seq<SourceId>, n: usize, k: int)
    requires
        0 <= k <= ids.len(),
        first_out_of_range(ids, n, k) >= ids.len(),
    ensures
        forall|j: int| k <= j < ids.len() ==> (#[trigger] ids[j]).0 < n,
    decreases ids.len() - k,
{
    if k < ids.len() {
        lemma_none_out_of_range(ids, n, k + 1);
    }
}

proof fn lemma_none_misplaced(ids: Seq<SourceId>, n: usize, i: int)
    requires
        0 <= i <= n,
        first_misplaced(ids, n, i) >= n,
    ensures
        forall|j: usize| i <= j < n ==> #[trigger] count_of(ids, j) == 1,
    decreases n - i,
{
    if i < n {
        lemma_none_misplaced(ids, n, i + 1);
        assert(count_of(ids, i as usize) == 1);
    }
}

proof fn lemma_none_too_short(panes: Seq<PaneBox>, i: int)
    requires
        0 <= i <= panes.len(),
        first_too_short(panes, i) >= panes.len(),
    ensures
        forall|j: int| i <= j < panes.len() ==> (#[trigger] panes[j]).height > panes[j].frame_rows_spec(),
    decreases panes.len() - i,
{
    if i < panes.len() {
        lemma_none_too_short(panes, i + 1);
    }
}

/// A declaration `Registry::panes` accepts pairs every source with one
/// box, places every declared pane in the layout exactly once, places
/// nothing past the declared ones, and leaves every pane a row inside
/// its frame.
pub proof fn law_accepted_layout_places_each_pane_once(
    sources: Seq<SourceSpec>,
    panes: Seq<PaneBox>,
    layout: LayoutNode,
)
    requires
        sources.len() <= usize::MAX,
        panes_refusal(sources, panes, layout) is None,
    ensures
        panes.len() == sources.len(),
        forall|k: int| 0 <= k < layout_ids(layout).len() ==> (#[trigger] layout_ids(layout)[k]).0 < sources.len(),
        forall|i: usize| i < sources.len() ==> #[trigger] count_of(layout_ids(layout), i) == 1,
        forall|i: int| 0 <= i < panes.len() ==> (#[trigger] panes[i]).height > panes[i].frame_rows_spec(),
{
    let n = sources.len();
    let ids = layout_ids(layout);
    lemma_none_out_of_range(ids, n as usize, 0);
    lemma_none_misplaced(ids, n as usize, 0);
    lemma_none_too_short(panes, 0);
}

} // verus!
