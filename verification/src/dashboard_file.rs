//! The parsed dashboard declaration and the one path that validates
//! it: defaults resolved, every token parsed, the layout checked, the
//! registry built.
//!
//! | pane `interval` | defaults `interval` | triggers | effective |
//! |---|---|---|---|
//! | a token | any | any | the pane's token |
//! | `"never"` | any | any | none — triggers only |
//! | absent | a token | any | the default's token |
//! | absent | absent | some | none — triggers only |
//! | absent | absent | none | 2s |
use vstd::prelude::*;
use vstd::string::*;

use crate::box_model::{parse_sides, preset_named_from, preset_names, preset_names_text, sides_spec, BorderPreset, Sides};
use crate::duration::{duration_of_millis, duration_of_secs, from_millis, from_secs, interval_outcome, parse_interval, IntervalOutcome};
use crate::trigger::{parse_trigger, trigger_error, TriggerSpec};
use crate::key_spelling::Key;
use crate::registry::{
    children_ids, count_of, first_misplaced, first_out_of_range, first_too_short, layout_ids, panes_refusal, shebang, shebang_spec, Composition, LayoutNode, Registry, SourceId, TitleSource, ModeView, Overflow, PaneBox, PaneWidth, ShellDecl, ShellMode, SourceProgram,
    SourceSpec,
};
use crate::template::{expand_spec, ref_at, reference_at, refs_spec, Bindings, Template};
use crate::text::{
    chars_of, chars_range, chars_start_with, debug_quote, debug_str, decimal, decimal_string, find_char_from,
    index_of_from, join_strings, joined, parse_u64, parse_u64_spec, starts_with, string_of, trim, trim_chars, trim_start,
    trim_start_chars,
};
use crate::variables::{position_of, Tier, VariableBlock};

verus! {

broadcast use vstd::string::group_string_axioms;

/// The dashboard's declared title: static text, a pane reference
/// (`ref="#id"`), or both — the text is then the fallback while the
/// referenced pane has not spoken.
#[derive(Clone, PartialEq, Debug)]
pub struct TitleDecl {
    /// A string an author writes, so a template like any other.
    pub text: Option<Template>,
    /// The referenced pane id — the fragment with its `#` removed.
    pub reference: Option<String>,
}

/// A declared layout node: a pane by name, or a row/column of nested
/// nodes.
#[derive(PartialEq, Debug)]
pub enum LayoutDecl {
    Pane(String),
    Row(Vec<LayoutDecl>),
    Column(Vec<LayoutDecl>),
}

impl Clone for LayoutDecl {
    /// The same tree, node for node.
    fn clone(&self) -> (r: LayoutDecl)
        ensures
            layout_view(r) == layout_view(*self),
        decreases self,
    {
        match self {
            LayoutDecl::Pane(name) => LayoutDecl::Pane(name.clone()),
            LayoutDecl::Row(cells) => LayoutDecl::Row(clone_cells(cells)),
            LayoutDecl::Column(cells) => LayoutDecl::Column(clone_cells(cells)),
        }
    }
}

/// A copy of a list of layout cells, cell for cell.
fn clone_cells(v: &Vec<LayoutDecl>) -> (r: Vec<LayoutDecl>)
    ensures
        views_of(r@) == views_of(v@),
    decreases v,
{
    let mut r: Vec<LayoutDecl> = Vec::new();
    let mut i: usize = 0;
    while i < v.len()
        invariant
            i <= v@.len(),
            views_of(r@) == views_of(v@.take(i as int)),
        decreases v@.len() - i,
    {
        let c = v[i].clone();
        proof {
            assert(v@.take(i + 1).drop_last() =~= v@.take(i as int));
        }
        let ghost before = r@;
        r.push(c);
        proof {
            assert(r@.drop_last() =~= before);
        }
        i = i + 1;
    }
    assert(v@.take(v@.len() as int) =~= v@);
    r
}

/// A layout declaration as a value: names by their chars.
pub enum LayoutView {
    Pane(Seq<char>),
    Row(Seq<LayoutView>),
    Column(Seq<LayoutView>),
}

pub open spec fn layout_view(d: LayoutDecl) -> LayoutView
    decreases d,
{
    match d {
        LayoutDecl::Pane(name) => LayoutView::Pane(name@),
        LayoutDecl::Row(cells) => LayoutView::Row(views_of(cells@)),
        LayoutDecl::Column(cells) => LayoutView::Column(views_of(cells@)),
    }
}

pub open spec fn views_of(cells: Seq<LayoutDecl>) -> Seq<LayoutView>
    decreases cells,
{
    if cells.len() == 0 {
        seq![]
    } else {
        views_of(cells.drop_last()).push(layout_view(cells.last()))
    }
}

/// One-cell rows and columns collapse to their cell, at every depth.
pub open spec fn norm_view(v: LayoutView) -> LayoutView
    decreases v,
{
    match v {
        LayoutView::Pane(name) => LayoutView::Pane(name),
        LayoutView::Row(cells) => if cells.len() == 1 {
            norm_view(cells[0])
        } else {
            LayoutView::Row(norm_views(cells))
        },
        LayoutView::Column(cells) => if cells.len() == 1 {
            norm_view(cells[0])
        } else {
            LayoutView::Column(norm_views(cells))
        },
    }
}

pub open spec fn norm_views(cells: Seq<LayoutView>) -> Seq<LayoutView>
    decreases cells,
{
    if cells.len() == 0 {
        seq![]
    } else {
        norm_views(cells.drop_last()).push(norm_view(cells.last()))
    }
}

impl LayoutDecl {
    /// One-cell rows and columns collapse to their cell, so the two
    /// spellings of "a full-width pane" reach the same declaration.
    pub fn normalized(self) -> (r: LayoutDecl)
        ensures
            layout_view(r) == norm_view(layout_view(self)),
    {
        normalize_ref(&self)
    }
}

proof fn lemma_views_len(cells: Seq<LayoutDecl>)
    ensures
        views_of(cells).len() == cells.len(),
        forall|i: int| 0 <= i < cells.len() ==> #[trigger] views_of(cells)[i] == layout_view(cells[i]),
    decreases cells,
{
    if cells.len() > 0 {
        lemma_views_len(cells.drop_last());
    }
}

proof fn lemma_norm_views_len(cells: Seq<LayoutView>)
    ensures
        norm_views(cells).len() == cells.len(),
        forall|i: int| 0 <= i < cells.len() ==> #[trigger] norm_views(cells)[i] == norm_view(cells[i]),
    decreases cells,
{
    if cells.len() > 0 {
        lemma_norm_views_len(cells.drop_last());
    }
}

/// No row or column holds exactly one cell, at any depth.
pub open spec fn is_normal(v: LayoutView) -> bool
    decreases v,
{
    match v {
        LayoutView::Pane(_) => true,
        LayoutView::Row(cells) => cells.len() != 1 && all_normal(cells),
        LayoutView::Column(cells) => cells.len() != 1 && all_normal(cells),
    }
}

pub open spec fn all_normal(cells: Seq<LayoutView>) -> bool
    decreases cells,
{
    cells.len() == 0 || (all_normal(cells.drop_last()) && is_normal(cells.last()))
}

proof fn lemma_norm_is_normal(v: LayoutView)
    ensures
        is_normal(norm_view(v)),
    decreases v,
{
    match v {
        LayoutView::Pane(_) => {},
        LayoutView::Row(cells) => {
            if cells.len() == 1 {
                lemma_norm_is_normal(cells[0]);
            } else {
                lemma_norm_views_normal(cells);
                lemma_norm_views_len(cells);
            }
        },
        LayoutView::Column(cells) => {
            if cells.len() == 1 {
                lemma_norm_is_normal(cells[0]);
            } else {
                lemma_norm_views_normal(cells);
                lemma_norm_views_len(cells);
            }
        },
    }
}

proof fn lemma_norm_views_normal(cells: Seq<LayoutView>)
    ensures
        all_normal(norm_views(cells)),
    decreases cells,
{
    if cells.len() > 0 {
        lemma_norm_views_normal(cells.drop_last());
        lemma_norm_is_normal(cells.last());
        assert(norm_views(cells).drop_last() =~= norm_views(cells.drop_last()));
    }
}

proof fn lemma_normal_is_fixed(v: LayoutView)
    requires
        is_normal(v),
    ensures
        norm_view(v) == v,
    decreases v,
{
    match v {
        LayoutView::Pane(_) => {},
        LayoutView::Row(cells) => {
            lemma_normal_cells_fixed(cells);
        },
        LayoutView::Column(cells) => {
            lemma_normal_cells_fixed(cells);
        },
    }
}

proof fn lemma_normal_cells_fixed(cells: Seq<LayoutView>)
    requires
        all_normal(cells),
    ensures
        norm_views(cells) == cells,
    decreases cells,
{
    if cells.len() > 0 {
        lemma_normal_cells_fixed(cells.drop_last());
        lemma_normal_is_fixed(cells.last());
        assert(norm_views(cells) =~= cells);
    }
}

/// Normalizing twice is normalizing once, and what comes out holds no
/// single-cell row or column at any depth.
pub proof fn law_normalized_is_idempotent(d: LayoutDecl)
    ensures
        is_normal(norm_view(layout_view(d))),
        norm_view(norm_view(layout_view(d))) == norm_view(layout_view(d)),
{
    lemma_norm_is_normal(layout_view(d));
    lemma_normal_is_fixed(norm_view(layout_view(d)));
}

/// The pane names a layout places, depth first, left to right.
pub open spec fn view_names(v: LayoutView) -> Seq<Seq<char>>
    decreases v,
{
    match v {
        LayoutView::Pane(name) => seq![name],
        LayoutView::Row(cells) => cells_names(cells),
        LayoutView::Column(cells) => cells_names(cells),
    }
}

pub open spec fn cells_names(cells: Seq<LayoutView>) -> Seq<Seq<char>>
    decreases cells,
{
    if cells.len() == 0 {
        seq![]
    } else {
        cells_names(cells.drop_last()) + view_names(cells.last())
    }
}

proof fn lemma_norm_names(v: LayoutView)
    ensures
        view_names(norm_view(v)) == view_names(v),
    decreases v,
{
    match v {
        LayoutView::Pane(_) => {},
        LayoutView::Row(cells) => {
            lemma_norm_cells_names(cells);
            if cells.len() == 1 {
                lemma_norm_names(cells[0]);
                assert(cells.drop_last() =~= Seq::<LayoutView>::empty());
                assert(cells_names(cells.drop_last()) == Seq::<Seq<char>>::empty());
                assert(cells.last() == cells[0]);
                assert(cells_names(cells) =~= view_names(cells[0]));
            }
        },
        LayoutView::Column(cells) => {
            lemma_norm_cells_names(cells);
            if cells.len() == 1 {
                lemma_norm_names(cells[0]);
                assert(cells.drop_last() =~= Seq::<LayoutView>::empty());
                assert(cells_names(cells.drop_last()) == Seq::<Seq<char>>::empty());
                assert(cells.last() == cells[0]);
                assert(cells_names(cells) =~= view_names(cells[0]));
            }
        },
    }
}

proof fn lemma_norm_cells_names(cells: Seq<LayoutView>)
    ensures
        cells_names(norm_views(cells)) == cells_names(cells),
    decreases cells,
{
    if cells.len() > 0 {
        lemma_norm_cells_names(cells.drop_last());
        lemma_norm_names(cells.last());
        assert(norm_views(cells).drop_last() =~= norm_views(cells.drop_last()));
    }
}

/// Normalizing a layout keeps the panes it places, in the same order.
pub proof fn law_normalized_keeps_pane_order(d: LayoutDecl)
    ensures
        view_names(norm_view(layout_view(d))) == view_names(layout_view(d)),
{
    lemma_norm_names(layout_view(d));
}

/// The normal form of a declaration, built fresh.
fn normalize_ref(d: &LayoutDecl) -> (r: LayoutDecl)
    ensures
        layout_view(r) == norm_view(layout_view(*d)),
    decreases d,
{
    match d {
        LayoutDecl::Pane(name) => LayoutDecl::Pane(name.clone()),
        LayoutDecl::Row(cells) => {
            proof { lemma_views_len(cells@); }
            if cells.len() == 1 {
                normalize_ref(&cells[0])
            } else {
                LayoutDecl::Row(normalize_cells(cells))
            }
        },
        LayoutDecl::Column(cells) => {
            proof { lemma_views_len(cells@); }
            if cells.len() == 1 {
                normalize_ref(&cells[0])
            } else {
                LayoutDecl::Column(normalize_cells(cells))
            }
        },
    }
}

/// Every cell normalized, in order.
fn normalize_cells(cells: &Vec<LayoutDecl>) -> (r: Vec<LayoutDecl>)
    ensures
        views_of(r@) == norm_views(views_of(cells@)),
    decreases cells,
{
    let mut out: Vec<LayoutDecl> = Vec::new();
    let mut i: usize = 0;
    while i < cells.len()
        invariant
            i <= cells@.len(),
            out@.len() == i,
            forall|k: int| 0 <= k < i ==> layout_view(#[trigger] out@[k]) == norm_view(layout_view(cells@[k])),
        decreases cells@.len() - i,
    {
        let c = normalize_ref(&cells[i]);
        out.push(c);
        i = i + 1;
    }
    proof {
        lemma_views_len(out@);
        lemma_views_len(cells@);
        lemma_norm_views_len(views_of(cells@));
        assert(views_of(out@) =~= norm_views(views_of(cells@)));
    }
    out
}

} // verus!

verus! {

/// One pane's declaration (or the `defaults` block), tokens unparsed.
/// Every string an author writes is a [`Template`].
#[derive(Clone, PartialEq, Debug)]
pub struct PaneDecl {
    pub id: Option<String>,
    /// Split argv, or one raw script string under `shell`.
    pub command: Option<Vec<Template>>,
    /// A multi-line body declared with `script`.
    pub script: Option<Template>,
    /// `None` inherits; `Some(ShellDecl::Direct)` is an explicit `shell=#false`.
    pub shell: Option<ShellDecl>,
    /// "5s" | "never".
    pub interval: Option<Template>,
    pub trigger: Option<Vec<Template>>,
    pub trigger_debounce: Option<Template>,
    pub height: Option<u16>,
    /// "40" | "2fr" | "auto".
    pub width: Option<Template>,
    /// "keep-top" | "keep-bottom".
    pub overflow: Option<Template>,
    pub border: Option<Template>,
    /// `parse_sides` shorthand.
    pub padding: Option<Template>,
    pub title: Option<Template>,
    pub chrome: Option<bool>,
    /// Whether pane-navigation gestures may target this pane.
    pub focusable: Option<bool>,
    /// Whether this pane's body is a list of lines a reader can mark.
    pub selectable: Option<bool>,
    /// The child is long-lived: spawn it once and stream its output.
    pub live: Option<bool>,
}

impl PaneDecl {
    pub open spec fn is_blank(&self) -> bool {
        &&& self.id is None
        &&& self.command is None
        &&& self.script is None
        &&& self.shell is None
        &&& self.interval is None
        &&& self.trigger is None
        &&& self.trigger_debounce is None
        &&& self.height is None
        &&& self.width is None
        &&& self.overflow is None
        &&& self.border is None
        &&& self.padding is None
        &&& self.title is None
        &&& self.chrome is None
        &&& self.focusable is None
        &&& self.selectable is None
        &&& self.live is None
    }
}

impl Default for PaneDecl {
    /// Nothing declared: every key inherits.
    fn default() -> (d: PaneDecl)
        ensures
            d.is_blank(),
    {
        PaneDecl {
            id: None,
            command: None,
            script: None,
            shell: None,
            interval: None,
            trigger: None,
            trigger_debounce: None,
            height: None,
            width: None,
            overflow: None,
            border: None,
            padding: None,
            title: None,
            chrome: None,
            focusable: None,
            selectable: None,
            live: None,
        }
    }
}

/// The two program forms a binding may take, declared rather than resolved.
#[derive(Clone, PartialEq, Debug)]
pub enum BindingProgram {
    Argv(Vec<Template>),
    Script(Template),
}

/// What the board does with an action's output.
#[derive(Copy, Clone, PartialEq, Eq, Debug, Structural)]
pub enum BindingOutput {
    Hide,
    Status,
    Pager,
}

impl Default for BindingOutput {
    /// A status line: quieter than a pager, louder than nothing.
    fn default() -> (o: BindingOutput)
        ensures
            o is Status,
    {
        BindingOutput::Status
    }
}

/// One binding as declared — the `key` node's twin of [`PaneDecl`].
#[derive(Clone, PartialEq, Debug)]
pub struct KeyBindingDecl {
    /// The key as spelled, held to the vocabulary the loop speaks.
    pub key: Key,
    /// The positional verbatim, as the author wrote it.
    pub spelling: String,
    /// Required — the `?` reference is a board's only discovery surface.
    pub description: Template,
    pub program: BindingProgram,
    /// `None` inherits from `defaults`, exactly as a pane's does.
    pub shell: Option<ShellDecl>,
    /// The precondition, run before everything else.
    pub when: Option<Template>,
    /// The token as written, parsed at load after expansion.
    pub output: Option<Template>,
    pub confirm: Option<Template>,
}

/// One binding as loaded: display fields expanded, `output` and the
/// shell read, spawn sites still templates.
#[derive(Clone, PartialEq, Debug)]
pub struct KeyBinding {
    pub key: Key,
    pub spelling: String,
    pub description: String,
    pub program: BindingProgram,
    /// Resolved: own, else the defaults', then through the script ladder.
    pub shell: ShellMode,
    pub when: Option<Template>,
    /// The shell the precondition runs under; `None` exactly when `when` is.
    pub when_shell: Option<ShellMode>,
    pub output: BindingOutput,
    pub confirm: Option<String>,
}

/// The parsed declaration. The constructor produces exactly this; one
/// validation path turns it into a [`Registry`](crate::registry::Registry).
#[derive(Clone, PartialEq, Debug)]
pub struct DashboardFile {
    /// The whole dashboard's name.
    pub title: Option<TitleDecl>,
    /// The board's declared variables, checked but not evaluated.
    pub variables: VariableBlock,
    pub gap: Option<usize>,
    pub row_gap: Option<usize>,
    pub defaults: PaneDecl,
    pub panes: Vec<PaneDecl>,
    /// The declared layout, by pane name; absent stacks every pane in
    /// declaration order.
    pub layout: Option<Vec<LayoutDecl>>,
    /// The board's declared bindings, in declaration order.
    pub bindings: Vec<KeyBindingDecl>,
}

impl Default for DashboardFile {
    /// Nothing declared.
    fn default() -> (f: DashboardFile)
        ensures
            f.title is None,
            f.variables.vars@.len() == 0,
            f.variables.order@.len() == 0,
            f.gap is None,
            f.row_gap is None,
            f.defaults.is_blank(),
            f.panes@.len() == 0,
            f.layout is None,
            f.bindings@.len() == 0,
    {
        DashboardFile {
            title: None,
            variables: VariableBlock::new(Vec::new(), Vec::new()),
            gap: None,
            row_gap: None,
            defaults: PaneDecl::default(),
            panes: Vec::new(),
            layout: None,
            bindings: Vec::new(),
        }
    }
}

/// The first of two optional values that is present.
pub open spec fn first_of<T>(own: Option<T>, fallback: Option<T>) -> Option<T> {
    match own {
        Some(v) => Some(v),
        None => fallback,
    }
}

/// A flag as inherited: own, else the defaults', else `dflt`.
pub open spec fn flag_of(own: Option<bool>, fallback: Option<bool>, dflt: bool) -> bool {
    match first_of(own, fallback) {
        Some(b) => b,
        None => dflt,
    }
}

fn pick_flag(own: Option<bool>, fallback: Option<bool>, dflt: bool) -> (b: bool)
    ensures
        b == flag_of(own, fallback, dflt),
{
    match own {
        Some(b) => b,
        None => match fallback {
            Some(b) => b,
            None => dflt,
        },
    }
}

/// Whether a pane asked for a line cursor — opt-in, inherited.
pub open spec fn selectable_spec(decl: PaneDecl, defaults: PaneDecl) -> bool {
    flag_of(decl.selectable, defaults.selectable, false)
}

/// Whether a pane asked for a line cursor: its own answer, else the
/// defaults', else no.
pub fn selectable(decl: &PaneDecl, defaults: &PaneDecl) -> (b: bool)
    ensures
        b == selectable_spec(*decl, *defaults),
{
    pick_flag(decl.selectable, defaults.selectable, false)
}

/// The effective value and whether it came from `defaults`.
pub fn inherit<'a, T>(own: Option<&'a T>, defaults: Option<&'a T>) -> (r: Option<(&'a T, bool)>)
    ensures
        r == match own {
            Some(v) => Some((v, false)),
            None => match defaults {
                Some(v) => Some((v, true)),
                None => None,
            },
        },
{
    match own {
        Some(v) => Some((v, false)),
        None => match defaults {
            Some(v) => Some((v, true)),
            None => None,
        },
    }
}

pub open spec fn at_text(name: Seq<char>) -> Seq<char> {
    "pane "@ + debug_str(name)
}

/// Every error a pane raises names the pane first.
pub fn at(name: &str) -> (s: String)
    ensures
        s@ == at_text(name@),
{
    let mut s = String::from_str("pane ");
    let q = debug_quote(name);
    s.append(q.as_str());
    s
}

pub open spec fn shell_label_spec(decl: ShellDecl) -> Seq<char> {
    match decl {
        ShellDecl::Direct => "no shell"@,
        ShellDecl::Platform => "the platform shell"@,
        ShellDecl::Named(name) => "`"@ + name.text@ + "`"@,
    }
}

/// How a declared mode reads inside an error.
pub fn shell_label(decl: &ShellDecl) -> (s: String)
    ensures
        s@ == shell_label_spec(*decl),
{
    match decl {
        ShellDecl::Direct => String::from_str("no shell"),
        ShellDecl::Platform => String::from_str("the platform shell"),
        ShellDecl::Named(name) => {
            let mut s = String::from_str("`");
            s.append(name.as_str());
            s.append("`");
            s
        },
    }
}

pub open spec fn mode_label_spec(mode: crate::registry::ModeView) -> Seq<char> {
    match mode {
        crate::registry::ModeView::Direct => "no shell"@,
        crate::registry::ModeView::Platform => "the platform shell"@,
        crate::registry::ModeView::Named(name) => "`"@ + name + "`"@,
    }
}

/// How a resolved mode reads inside an error.
pub fn mode_label(mode: &ShellMode) -> (s: String)
    ensures
        s@ == mode_label_spec(mode@),
{
    match mode {
        ShellMode::Direct => String::from_str("no shell"),
        ShellMode::Platform => String::from_str("the platform shell"),
        ShellMode::Named(name) => {
            let mut s = String::from_str("`");
            s.append(name.as_str());
            s.append("`");
            s
        },
    }
}

pub open spec fn overflow_spec(token: Seq<char>) -> Option<Overflow> {
    if token == "keep-top"@ {
        Some(Overflow::KeepTop)
    } else if token == "keep-bottom"@ {
        Some(Overflow::KeepBottom)
    } else {
        None
    }
}

/// The overflow token's grammar: `keep-top` or `keep-bottom`.
pub fn overflow_token(token: &str, id: &str) -> (r: Result<Overflow, String>)
    ensures
        match overflow_spec(token@) {
            Some(o) => r == Ok::<Overflow, String>(o),
            None => r is Err && r->Err_0@ == at_text(id@) + ": unknown overflow "@ + debug_str(token@)
                + ": expected keep-top or keep-bottom"@,
        },
{
    let v = chars_of(token);
    if crate::text::chars_eq(v.as_slice(), "keep-top") {
        Ok(Overflow::KeepTop)
    } else if crate::text::chars_eq(v.as_slice(), "keep-bottom") {
        Ok(Overflow::KeepBottom)
    } else {
        let mut m = at(id);
        m.append(": unknown overflow ");
        let q = debug_quote(token);
        m.append(q.as_str());
        m.append(": expected keep-top or keep-bottom");
        Err(m)
    }
}

/// What `str::parse::<u16>` accepts.
pub open spec fn parse_u16_spec(s: Seq<char>) -> Option<u16> {
    match parse_u64_spec(s) {
        Some(n) => if n <= u16::MAX { Some(n as u16) } else { None },
        None => None,
    }
}

fn parse_u16(s: &[char]) -> (r: Option<u16>)
    ensures
        r == parse_u16_spec(s@),
{
    match parse_u64(s) {
        Some(n) => if n <= 65535 { Some(n as u16) } else { None },
        None => None,
    }
}

pub open spec fn ends_in_fr(t: Seq<char>) -> bool {
    t.len() >= 2 && t[t.len() - 2] == 'f' && t[t.len() - 1] == 'r'
}

/// A u16's decimal spelling reads back as it.
proof fn lemma_u16_reads_back(n: u16)
    ensures
        parse_u16_spec(decimal(n as nat)) == Some(n),
        decimal(n as nat).len() >= 1,
        crate::text::all_digits(decimal(n as nat)),
        forall|i: int| 0 <= i < decimal(n as nat).len() ==> !crate::text::is_ws(#[trigger] decimal(n as nat)[i]),
{
    crate::text::lemma_decimal_digits(n as nat);
    let d = decimal(n as nat);
    assert(crate::text::is_digit(d[0]));
}

/// A width of `N` plain is `N` cells exactly; a width of `Nfr` is `N`
/// shares of what the row leaves over.
pub proof fn law_width_counts_cells_and_fr_counts_shares(n: u16)
    ensures
        width_spec(decimal(n as nat)) == Some(PaneWidth::Cells(n)),
        width_spec(decimal(n as nat) + "fr"@) == Some(PaneWidth::Weight(n)),
{
    lemma_u16_reads_back(n);
    let d = decimal(n as nat);
    reveal_strlit("fr");
    assert(crate::text::is_digit(d[d.len() - 1]));
    assert(!ends_in_fr(d));
    let t = d + "fr"@;
    assert(t[t.len() - 2] == 'f' && t[t.len() - 1] == 'r');
    assert(t.subrange(0, t.len() - 2) =~= d);
    assert(!crate::text::is_ws(d[0]));
    assert(!crate::text::is_ws(d.last()));
    assert(crate::text::trim_start(d) == d);
    assert(crate::text::trim_end(d) == d);
}

/// `"40"` = exact cells, `"2fr"` = a share of what is left.
pub open spec fn width_spec(token: Seq<char>) -> Option<PaneWidth> {
    if ends_in_fr(token) {
        match parse_u16_spec(trim(token.subrange(0, token.len() - 2))) {
            Some(w) => Some(PaneWidth::Weight(w)),
            None => None,
        }
    } else {
        match parse_u16_spec(token) {
            Some(c) => Some(PaneWidth::Cells(c)),
            None => None,
        }
    }
}

/// `"40"` = exact cells, `"2fr"` = a share of what is left. (`"auto"`
/// is the caller's: it never reaches here.)
pub fn parse_width(token: &str, id: &str) -> (r: Result<PaneWidth, String>)
    ensures
        match width_spec(token@) {
            Some(w) => r == Ok::<PaneWidth, String>(w),
            None => r is Err && r->Err_0@ == at_text(id@) + ": invalid width "@ + debug_str(token@)
                + ": expected CELLS, Nfr, or auto"@,
        },
{
    let v = chars_of(token);
    let n = v.len();
    let parsed = if n >= 2 && v[n - 2] == 'f' && v[n - 1] == 'r' {
        let head = chars_range(v.as_slice(), 0, n - 2);
        let t = trim_chars(head.as_slice());
        match parse_u16(t.as_slice()) {
            Some(w) => Some(PaneWidth::Weight(w)),
            None => None,
        }
    } else {
        match parse_u16(v.as_slice()) {
            Some(c) => Some(PaneWidth::Cells(c)),
            None => None,
        }
    };
    match parsed {
        Some(w) => Ok(w),
        None => {
            let mut m = at(id);
            m.append(": invalid width ");
            let q = debug_quote(token);
            m.append(q.as_str());
            m.append(": expected CELLS, Nfr, or auto");
            Err(m)
        },
    }
}

/// A border preset by name, ignoring ASCII case; the refusal lists
/// every name.
pub fn parse_border(token: &str, id: &str) -> (r: Result<BorderPreset, String>)
    ensures
        match preset_named_from(token@, 0) {
            Some(b) => r == Ok::<BorderPreset, String>(b),
            None => r is Err && r->Err_0@ == at_text(id@) + ": unknown border "@ + debug_str(token@)
                + ": expected one of "@ + preset_names_text(),
        },
{
    match BorderPreset::from_name(token) {
        Some(b) => Ok(b),
        None => {
            let mut m = at(id);
            m.append(": unknown border ");
            let q = debug_quote(token);
            m.append(q.as_str());
            m.append(": expected one of ");
            m.append(preset_names());
            Err(m)
        },
    }
}

} // verus!

verus! {

/// What a load-time site reads: its text with every reference filled
/// from the load's values — the text itself when it references nothing.
pub open spec fn at_load_spec(t: Template, b: Bindings) -> Result<Seq<char>, Seq<char>> {
    if t.refs@.len() == 0 {
        Ok(t.text@)
    } else {
        match expand_spec(t, b) {
            Ok(s) => Ok(s),
            Err(name) => Err(missing_value_text(name)),
        }
    }
}

pub open spec fn missing_value_text(name: Seq<char>) -> Seq<char> {
    "`{{"@ + name + "}}` has no value at load"@
}

/// Fill a load-time site's holes before its parser sees the text.
pub fn at_load(template: &Template, bindings: &Bindings) -> (r: Result<String, String>)
    ensures
        match at_load_spec(*template, *bindings) {
            Ok(s) => r is Ok && r->Ok_0@ == s,
            Err(m) => r is Err && r->Err_0@ == m,
        },
{
    if template.refs().len() == 0 {
        return Ok(template.text.clone());
    }
    match template.expand(bindings) {
        Ok(s) => Ok(s),
        Err(missing) => {
            let mut m = String::from_str("`{{");
            m.append(missing.name.as_str());
            m.append("}}` has no value at load");
            Err(m)
        },
    }
}

/// The tier a block gives `name`, when it declares it.
pub open spec fn tier_in(block: VariableBlock, name: Seq<char>) -> Option<Tier> {
    match position_of(block.vars@, name, 0) {
        Some(i) => Some(block.vars@[i].tier),
        None => None,
    }
}

/// The first of `refs` from `k` on that the block declares deferred.
pub open spec fn first_deferred(refs: Seq<String>, block: VariableBlock, k: int) -> Option<Seq<char>>
    decreases refs.len() - k,
{
    if k < 0 || k >= refs.len() {
        None
    } else if tier_in(block, refs[k]@) == Some(Tier::Spawn) {
        Some(refs[k]@)
    } else {
        first_deferred(refs, block, k + 1)
    }
}

pub open spec fn deferred_site_text(subject: Seq<char>, site: Seq<char>, inherited: bool, name: Seq<char>) -> Seq<char> {
    subject + ": `"@ + site + "`"@ + (if inherited { " (inherited from `defaults`)"@ } else { ""@ })
        + " is read when the dashboard loads, but its value references `{{"@ + name + "}}`, and `"@ + name
        + "` is declared `defer=#true` — a deferred variable is re-derived at each spawn, and a value parsed once at load has nowhere to put a hole. Drop `defer` from `"@
        + name + "`, or move the value into the pane's `command`, which IS read at spawn"@
}

/// A site parsed once at load must be complete at load: a value that
/// references a deferred variable is refused, naming the site and the
/// variable.
pub fn refuse_deferred_at_load_site(
    value: &Template,
    site: &str,
    inherited: bool,
    block: &VariableBlock,
    subject: &str,
) -> (r: Result<(), String>)
    ensures
        match first_deferred(value.refs@, *block, 0) {
            Some(name) => r is Err && r->Err_0@ == deferred_site_text(subject@, site@, inherited, name),
            None => r is Ok,
        },
{
    let refs = value.refs();
    let mut k: usize = 0;
    while k < refs.len()
        invariant
            k <= refs@.len(),
            refs@ == value.refs@,
            first_deferred(value.refs@, *block, 0) == first_deferred(value.refs@, *block, k as int),
        decreases refs@.len() - k,
    {
        let name = refs[k].as_str();
        let deferred = match block.tier(name) {
            Some(Tier::Spawn) => true,
            _ => false,
        };
        if deferred {
            let mut m = String::from_str(subject);
            m.append(": `");
            m.append(site);
            m.append("`");
            if inherited {
                m.append(" (inherited from `defaults`)");
            } else {
                m.append("");
            }
            m.append(" is read when the dashboard loads, but its value references `{{");
            m.append(name);
            m.append("}}`, and `");
            m.append(name);
            m.append("` is declared `defer=#true` — a deferred variable is re-derived at each spawn, and a value parsed once at load has nowhere to put a hole. Drop `defer` from `");
            m.append(name);
            m.append("`, or move the value into the pane's `command`, which IS read at spawn");
            return Err(m);
        }
        k = k + 1;
    }
    Ok(())
}

/// The text up to the first newline.
pub open spec fn first_line(t: Seq<char>) -> Seq<char> {
    t.subrange(0, index_of_from(t, '\n', 0))
}

pub open spec fn shebang_ref_text(subject: Seq<char>, noun: Seq<char>, name: Seq<char>) -> Seq<char> {
    subject + ": this `script` body's `#!` line references `{{"@ + name
        + "}}` — the `#!` line names the body's interpreter and is read at load, before any variable expands, so it must be written out in full. Write the interpreter literally, or drop the `#!` line to run the body through the "@
        + noun + "'s shell"@
}

pub open spec fn leading_ref_text(subject: Seq<char>, name: Seq<char>) -> Seq<char> {
    subject + ": this `script` body begins with `{{"@ + name
        + "}}` — rat reads a body's first two bytes at load to see whether it names its own interpreter (`#!`), and it cannot read a hole. Begin the body with literal text: `echo {{"@
        + name + "}}` rather than `{{"@ + name + "}}`"@
}

/// What the first-bytes rule says of a body: nothing, or the refusal.
pub open spec fn first_bytes_refusal(body: Template, subject: Seq<char>, noun: Seq<char>) -> Option<Seq<char>> {
    let text = body.text@;
    if !body.interpolating {
        None
    } else if starts_with(text, "#!"@) {
        let refs = refs_spec(first_line(text));
        if refs.len() > 0 {
            Some(shebang_ref_text(subject, noun, refs[0]))
        } else {
            None
        }
    } else {
        match ref_at(text, 0) {
            Some((name, _)) => Some(leading_ref_text(subject, name)),
            None => None,
        }
    }
}

/// A body may not begin with a reference, and a `#!` first line must
/// be template-free: the interpreter is read at load, before anything
/// expands.
pub fn script_first_bytes(body: &Template, subject: &str, noun: &str) -> (r: Result<(), String>)
    ensures
        match first_bytes_refusal(*body, subject@, noun@) {
            Some(m) => r is Err && r->Err_0@ == m,
            None => r is Ok,
        },
{
    if !body.interpolates() {
        return Ok(());
    }
    let v = chars_of(body.as_str());
    if chars_start_with(v.as_slice(), "#!") {
        let nl = find_char_from(v.as_slice(), '\n', 0);
        let line = chars_range(v.as_slice(), 0, nl);
        let first = string_of(line.as_slice());
        let t = Template::extract(first.as_str());
        if t.refs().len() > 0 {
            let name = t.refs()[0].as_str();
            let mut m = String::from_str(subject);
            m.append(": this `script` body's `#!` line references `{{");
            m.append(name);
            m.append("}}` — the `#!` line names the body's interpreter and is read at load, before any variable expands, so it must be written out in full. Write the interpreter literally, or drop the `#!` line to run the body through the ");
            m.append(noun);
            m.append("'s shell");
            return Err(m);
        }
        return Ok(());
    }
    match reference_at(body.as_str(), 0) {
        Some((name, _)) => {
            let mut m = String::from_str(subject);
            m.append(": this `script` body begins with `{{");
            m.append(name.as_str());
            m.append("}}` — rat reads a body's first two bytes at load to see whether it names its own interpreter (`#!`), and it cannot read a hole. Begin the body with literal text: `echo {{");
            m.append(name.as_str());
            m.append("}}` rather than `{{");
            m.append(name.as_str());
            m.append("}}`");
            Err(m)
        },
        None => Ok(()),
    }
}

} // verus!

verus! {

pub open spec fn no_body_text(subject: Seq<char>) -> Seq<char> {
    subject + ": `script` has no body — write the script inside a `\"\"\"` block, or drop the key"@
}

pub open spec fn spelled_shebang(interp: Seq<char>, arg: Option<Seq<char>>) -> Seq<char> {
    match arg {
        Some(a) => interp + " "@ + a,
        None => interp,
    }
}

pub open spec fn shebang_shell_text(subject: Seq<char>, own: ShellDecl, spelled: Seq<char>) -> Seq<char> {
    subject + ": declares `shell` and a `script` whose `#!` line already names its interpreter (`"@ + spelled
        + "`) — the `#!` wins and "@ + shell_label_spec(own)
        + " would never run. Drop `shell`, or drop the `#!` line to run the body through "@
        + shell_label_spec(own) + "."@
}

pub open spec fn indented_text(subject: Seq<char>) -> Seq<char> {
    subject
        + ": the `#!` line must be the body's first two bytes, but this one is indented. KDL removes the closing `\"\"\"`'s indentation from every line — align the closing `\"\"\"` with the script"@
}

pub open spec fn no_shell_text(subject: Seq<char>, noun: Seq<char>) -> Seq<char> {
    subject + ": `script` runs through a shell, but this "@ + noun
        + " declares `shell #false` — a body has no argv to execute directly. Drop the `shell #false`, or write the program as `command`"@
}

/// The rulings every `script` body gets, whoever declares it.
pub open spec fn ladder_spec(
    body: Template,
    own: Option<ShellDecl>,
    declared: Option<ShellDecl>,
    shell: ModeView,
    subject: Seq<char>,
    noun: Seq<char>,
) -> Result<ModeView, Seq<char>> {
    if trim(body.text@).len() == 0 {
        Err(no_body_text(subject))
    } else {
        match first_bytes_refusal(body, subject, noun) {
            Some(m) => Err(m),
            None => match shebang_spec(body.text@) {
                Some((interp, arg)) => match own {
                    Some(o) => if !(o is Direct) {
                        Err(shebang_shell_text(subject, o, spelled_shebang(interp, arg)))
                    } else {
                        Ok(shell)
                    },
                    None => Ok(shell),
                },
                None => if starts_with(trim_start(first_line(body.text@)), "#!"@) {
                    Err(indented_text(subject))
                } else if declared == Some(ShellDecl::Direct) {
                    Err(no_shell_text(subject, noun))
                } else {
                    Ok(if shell is Direct { ModeView::Platform } else { shell })
                },
            },
        }
    }
}

/// The script-body ladder: an empty body is refused, a `#!` body
/// refuses a declared running shell, an indented `#!` is refused, a
/// shebang-less body under an explicit `shell #false` is refused, and a
/// shebang-less body promotes `Direct` to the platform shell.
pub fn script_ladder(
    body: &Template,
    own_shell: Option<&ShellDecl>,
    declared_shell: Option<&ShellDecl>,
    shell: &ShellMode,
    subject: &str,
    noun: &str,
) -> (r: Result<ShellMode, String>)
    ensures
        match ladder_spec(*body, deref_opt(own_shell), deref_opt(declared_shell), shell@, subject@, noun@) {
            Ok(m) => r is Ok && r->Ok_0@ == m,
            Err(e) => r is Err && r->Err_0@ == e,
        },
{
    let v = chars_of(body.as_str());
    let t = trim_chars(v.as_slice());
    if t.len() == 0 {
        let mut m = String::from_str(subject);
        m.append(": `script` has no body — write the script inside a `\"\"\"` block, or drop the key");
        return Err(m);
    }
    match script_first_bytes(body, subject, noun) {
        Ok(()) => {},
        Err(e) => return Err(e),
    }
    match shebang(body.as_str()) {
        Some(line) => {
            match own_shell {
                Some(own) => {
                    if own.runs_a_shell() {
                        let mut spelled = line.interpreter.clone();
                        match &line.arg {
                            Some(arg) => {
                                spelled.append(" ");
                                spelled.append(arg.as_str());
                            },
                            None => {},
                        }
                        let label = shell_label(own);
                        let mut m = String::from_str(subject);
                        m.append(": declares `shell` and a `script` whose `#!` line already names its interpreter (`");
                        m.append(spelled.as_str());
                        m.append("`) — the `#!` wins and ");
                        m.append(label.as_str());
                        m.append(" would never run. Drop `shell`, or drop the `#!` line to run the body through ");
                        m.append(label.as_str());
                        m.append(".");
                        return Err(m);
                    }
                },
                None => {},
            }
            Ok(shell.duplicate())
        },
        None => {
            let nl = find_char_from(v.as_slice(), '\n', 0);
            let line = chars_range(v.as_slice(), 0, nl);
            let lead = trim_start_chars(line.as_slice());
            if chars_start_with(lead.as_slice(), "#!") {
                let mut m = String::from_str(subject);
                m.append(": the `#!` line must be the body's first two bytes, but this one is indented. KDL removes the closing `\"\"\"`'s indentation from every line — align the closing `\"\"\"` with the script");
                return Err(m);
            }
            let direct = match declared_shell {
                Some(ShellDecl::Direct) => true,
                _ => false,
            };
            if direct {
                let mut m = String::from_str(subject);
                m.append(": `script` runs through a shell, but this ");
                m.append(noun);
                m.append(" declares `shell #false` — a body has no argv to execute directly. Drop the `shell #false`, or write the program as `command`");
                return Err(m);
            }
            Ok(match shell {
                ShellMode::Direct => ShellMode::Platform,
                other => other.duplicate(),
            })
        },
    }
}

} // verus!

verus! {

/// `ctx: err` — an error raised under a pane names the pane first.
pub fn in_context(ctx: &str, err: &str) -> (m: String)
    ensures
        m@ == ctx@ + ": "@ + err@,
{
    let mut m = String::from_str(ctx);
    m.append(": ");
    m.append(err);
    m
}

pub open spec fn inherited_script_text(id: Seq<char>, defaults_shell: ModeView, shell: ModeView) -> Seq<char> {
    at_text(id)
        + ": inherits `script` from `defaults` but overrides `shell` — the inherited body was written under the defaults' shell mode ("@
        + mode_label_spec(defaults_shell) + "), not this pane's ("@ + mode_label_spec(shell)
        + "); declare the pane's own `script`"@
}

/// The effective declared shell: own, else the defaults'.
pub fn declared_shell<'a>(decl: &'a PaneDecl, defaults: &'a PaneDecl) -> (r: Option<&'a ShellDecl>)
    ensures
        deref_opt(r) == first_of(decl.shell, defaults.shell),
{
    match &decl.shell {
        Some(s) => Some(s),
        None => match &defaults.shell {
            Some(s) => Some(s),
            None => None,
        },
    }
}

/// The script-body half of `resolve_source`: the ladder, then the
/// pane's own inherit-guard for a shebang-less inherited body.
pub fn resolve_script(
    body: &Template,
    decl: &PaneDecl,
    defaults: &PaneDecl,
    shell: &ShellMode,
    defaults_shell: &ShellMode,
    inherited: bool,
    id: &str,
) -> (r: Result<(SourceProgram, ShellMode), String>)
    ensures
        match ladder_spec(*body, decl.shell, first_of(decl.shell, defaults.shell), shell@, at_text(id@), "pane"@) {
            Err(e) => r is Err && r->Err_0@ == e,
            Ok(mode) => if shebang_spec(body.text@) is None && inherited && shell@ != defaults_shell@ {
                r is Err && r->Err_0@ == inherited_script_text(id@, defaults_shell@, shell@)
            } else {
                r is Ok && (r->Ok_0).1@ == mode && ((r->Ok_0).0 matches SourceProgram::Script(t)
                    && t.text == body.text && t.refs@ == body.refs@ && t.interpolating == body.interpolating)
            },
        },
{
    let subject = at(id);
    let mode = match script_ladder(body, decl.shell.as_ref(), declared_shell(decl, defaults), shell, subject.as_str(), "pane") {
        Ok(m) => m,
        Err(e) => return Err(e),
    };
    let has_shebang = shebang(body.as_str()).is_some();
    if !has_shebang && inherited && !shell.same_as(defaults_shell) {
        let mut m = at(id);
        m.append(": inherits `script` from `defaults` but overrides `shell` — the inherited body was written under the defaults' shell mode (");
        let a = mode_label(defaults_shell);
        m.append(a.as_str());
        m.append("), not this pane's (");
        let b = mode_label(shell);
        m.append(b.as_str());
        m.append("); declare the pane's own `script`");
        return Err(m);
    }
    Ok((SourceProgram::Script(body.duplicate()), mode))
}

/// An optional reference, followed.
pub open spec fn deref_opt(o: Option<&ShellDecl>) -> Option<ShellDecl> {
    match o {
        Some(s) => Some(*s),
        None => None,
    }
}

} // verus!

verus! {

/// The same templates, element for element.
pub open spec fn same_templates(a: Seq<Template>, b: Seq<Template>) -> bool {
    &&& a.len() == b.len()
    &&& forall|i: int| 0 <= i < a.len() ==> #[trigger] a[i].text == b[i].text && a[i].refs@ == b[i].refs@
        && a[i].interpolating == b[i].interpolating
}

/// A copy of a list of templates.
pub fn copy_templates(v: &Vec<Template>) -> (r: Vec<Template>)
    ensures
        same_templates(r@, v@),
{
    let mut r: Vec<Template> = Vec::new();
    let mut i: usize = 0;
    while i < v.len()
        invariant
            i <= v@.len(),
            r@.len() == i,
            forall|k: int| 0 <= k < i ==> #[trigger] r@[k].text == v@[k].text && r@[k].refs@ == v@[k].refs@
                && r@[k].interpolating == v@[k].interpolating,
        decreases v@.len() - i,
    {
        r.push(v[i].duplicate());
        i = i + 1;
    }
    r
}

pub open spec fn no_program_text(id: Seq<char>) -> Seq<char> {
    at_text(id) + ": needs a `command` or a `script`"@
}

pub open spec fn inherited_command_text(id: Seq<char>, defaults_shell: ModeView, shell: ModeView) -> Seq<char> {
    at_text(id)
        + ": inherits `command` from `defaults` but overrides `shell` — the inherited command was read and written under the defaults' shell mode ("@
        + mode_label_spec(defaults_shell) + "), not this pane's ("@ + mode_label_spec(shell)
        + "); declare the pane's own `command`"@
}

/// The script a pane runs, if it runs one: its own, else — when it
/// declares no `command` either — the defaults'.
pub open spec fn effective_script(decl: PaneDecl, defaults: PaneDecl) -> Option<Template> {
    match decl.script {
        Some(s) => Some(s),
        None => if decl.command is None { defaults.script } else { None },
    }
}

/// The first deferred reference among trigger specs `i..`.
pub open spec fn trigger_deferred_from(specs: Seq<Template>, block: VariableBlock, i: int) -> Option<Seq<char>>
    decreases specs.len() - i,
{
    if i < 0 || i >= specs.len() {
        None
    } else {
        match first_deferred(specs[i].refs@, block, 0) {
            Some(n) => Some(n),
            None => trigger_deferred_from(specs, block, i + 1),
        }
    }
}

/// The watched paths of trigger specs `k..`, each filled at load and
/// read as `file:PATH` — or the first refusal.
pub open spec fn triggers_loaded_from(specs: Seq<Template>, b: Bindings, subject: Seq<char>, k: int) -> Result<
    Seq<Seq<char>>,
    Seq<char>,
>
    decreases specs.len() - k,
{
    if k < 0 || k >= specs.len() {
        Ok(Seq::empty())
    } else {
        match at_load_spec(specs[k], b) {
            Err(m) => Err(m),
            Ok(x) => if starts_with(x, "file:"@) && x.len() > 5 {
                match triggers_loaded_from(specs, b, subject, k + 1) {
                    Ok(ps) => Ok(seq![x.subrange(5, x.len() as int)] + ps),
                    Err(m) => Err(m),
                }
            } else {
                Err(subject + ": "@ + trigger_error(x))
            },
        }
    }
}

/// A pane's triggers: refused if any holds a deferred reference, else
/// each filled and parsed in turn.
pub open spec fn triggers_result(
    specs: Seq<Template>,
    inherited: bool,
    block: VariableBlock,
    b: Bindings,
    subject: Seq<char>,
) -> Result<Seq<Seq<char>>, Seq<char>> {
    match trigger_deferred_from(specs, block, 0) {
        Some(n) => Err(deferred_site_text(subject, "trigger"@, inherited, n)),
        None => triggers_loaded_from(specs, b, subject, 0),
    }
}

/// The paths a list of triggers watches.
pub open spec fn trigger_paths(v: Seq<TriggerSpec>) -> Seq<Seq<char>> {
    v.map_values(|t: TriggerSpec| match t {
        TriggerSpec::File(p) => p@,
    })
}

pub open spec fn prepend_paths(acc: Seq<Seq<char>>, r: Result<Seq<Seq<char>>, Seq<char>>) -> Result<Seq<Seq<char>>, Seq<char>> {
    match r {
        Ok(ps) => Ok(acc + ps),
        Err(m) => Err(m),
    }
}

/// A pane's load-time triggers.
fn resolve_triggers(
    picked: Option<(&Vec<Template>, bool)>,
    block: &VariableBlock,
    bindings: &Bindings,
    id: &str,
) -> (r: Result<Vec<TriggerSpec>, String>)
    ensures
        match picked {
            None => r is Ok && r->Ok_0@.len() == 0,
            Some((specs, inherited)) => match triggers_result(specs@, inherited, *block, *bindings, at_text(id@)) {
                Ok(ps) => r is Ok && trigger_paths(r->Ok_0@) == ps,
                Err(m) => r is Err && r->Err_0@ == m,
            },
        },
{
    let subject = at(id);
    let mut out: Vec<TriggerSpec> = Vec::new();
    match picked {
        None => Ok(out),
        Some((specs, inherited)) => {
            let mut i: usize = 0;
            while i < specs.len()
                invariant
                    i <= specs@.len(),
                    picked == Some((specs, inherited)),
                    subject@ == at_text(id@),
                    trigger_deferred_from(specs@, *block, 0) == trigger_deferred_from(specs@, *block, i as int),
                decreases specs@.len() - i,
            {
                match refuse_deferred_at_load_site(&specs[i], "trigger", inherited, block, subject.as_str()) {
                    Ok(()) => {},
                    Err(e) => return Err(e),
                }
                i = i + 1;
            }
            let mut k: usize = 0;
            while k < specs.len()
                invariant
                    k <= specs@.len(),
                    picked == Some((specs, inherited)),
                    subject@ == at_text(id@),
                    trigger_deferred_from(specs@, *block, 0) is None,
                    triggers_loaded_from(specs@, *bindings, subject@, 0) == prepend_paths(
                        trigger_paths(out@),
                        triggers_loaded_from(specs@, *bindings, subject@, k as int),
                    ),
                decreases specs@.len() - k,
            {
                let text = match at_load(&specs[k], bindings) {
                    Ok(t) => t,
                    Err(e) => return Err(e),
                };
                match parse_trigger(text.as_str()) {
                    Ok(t) => {
                        let ghost before = out@;
                        out.push(t);
                        proof {
                            assert(trigger_paths(out@) =~= trigger_paths(before) + seq![text@.subrange(5, text@.len() as int)]);
                            let rest = triggers_loaded_from(specs@, *bindings, subject@, k + 1);
                            match rest {
                                Ok(ps) => {
                                    assert(trigger_paths(before) + (seq![text@.subrange(5, text@.len() as int)] + ps)
                                        =~= trigger_paths(out@) + ps);
                                },
                                Err(m) => {},
                            }
                        }
                    },
                    Err(e) => return Err(in_context(subject.as_str(), e.as_str())),
                }
                k = k + 1;
            }
            proof {
                assert(trigger_paths(out@) + Seq::<Seq<char>>::empty() =~= trigger_paths(out@));
            }
            Ok(out)
        },
    }
}

/// A duration token read at load, under the pane's name.
fn load_token(
    picked: Option<(&Template, bool)>,
    site: &str,
    block: &VariableBlock,
    bindings: &Bindings,
    id: &str,
) -> (r: Result<Option<String>, String>)
    ensures
        match picked {
            None => r == Ok::<Option<String>, String>(None),
            Some((t, inherited)) => match token_result(*t, inherited, site@, *block, *bindings, at_text(id@)) {
                Ok(x) => r is Ok && r->Ok_0 is Some && r->Ok_0->0@ == x,
                Err(m) => r is Err && r->Err_0@ == m,
            },
        },
{
    match picked {
        None => Ok(None),
        Some((value, inherited)) => {
            let subject = at(id);
            match refuse_deferred_at_load_site(value, site, inherited, block, subject.as_str()) {
                Ok(()) => {},
                Err(e) => return Err(e),
            }
            match at_load(value, bindings) {
                Ok(t) => Ok(Some(t)),
                Err(e) => Err(e),
            }
        },
    }
}

/// A load-time token: refused if it holds a deferred reference, else
/// filled from the load-time values.
pub open spec fn token_result(
    t: Template,
    inherited: bool,
    site: Seq<char>,
    block: VariableBlock,
    b: Bindings,
    subject: Seq<char>,
) -> Result<Seq<char>, Seq<char>> {
    match first_deferred(t.refs@, block, 0) {
        Some(n) => Err(deferred_site_text(subject, site, inherited, n)),
        None => at_load_spec(t, b),
    }
}

/// A token key read with inheritance: the pane's own, else the defaults'.
pub open spec fn picked_token(
    own: Option<Template>,
    dflt: Option<Template>,
    site: Seq<char>,
    block: VariableBlock,
    b: Bindings,
    subject: Seq<char>,
) -> Result<Option<Seq<char>>, Seq<char>> {
    let picked: Option<(Template, bool)> = match own {
        Some(t) => Some((t, false)),
        None => match dflt {
            Some(t) => Some((t, true)),
            None => None,
        },
    };
    match picked {
        None => Ok(None),
        Some((t, inherited)) => match token_result(t, inherited, site, block, b, subject) {
            Ok(x) => Ok(Some(x)),
            Err(m) => Err(m),
        },
    }
}

/// The triggers read with inheritance.
pub open spec fn picked_triggers(decl: PaneDecl, defaults: PaneDecl, block: VariableBlock, b: Bindings, subject: Seq<char>) -> Result<
    Seq<Seq<char>>,
    Seq<char>,
> {
    match decl.trigger {
        Some(t) => triggers_result(t@, false, block, b, subject),
        None => match defaults.trigger {
            Some(t) => triggers_result(t@, true, block, b, subject),
            None => Ok(Seq::empty()),
        },
    }
}

/// The interval a token asks for: `never` is none, anything else is
/// parsed; with no token, two seconds — or none when triggers drive
/// the pane.
pub open spec fn interval_choice(tok: Option<Seq<char>>, has_triggers: bool, subject: Seq<char>) -> Result<
    Option<std::time::Duration>,
    Seq<char>,
> {
    match tok {
        None => Ok(if has_triggers { None } else { Some(duration_of_secs(2)) }),
        Some(x) => if x == "never"@ {
            Ok(None)
        } else {
            match interval_outcome(x) {
                IntervalOutcome::Millis(n) => Ok(Some(duration_of_millis(n))),
                IntervalOutcome::Secs(n) => Ok(Some(duration_of_secs(n))),
                IntervalOutcome::Refused(m) => Err(subject + ": "@ + m),
            }
        },
    }
}

/// The trigger debounce a token asks for; 250ms without one.
pub open spec fn debounce_choice(tok: Option<Seq<char>>, subject: Seq<char>) -> Result<std::time::Duration, Seq<char>> {
    match tok {
        None => Ok(duration_of_millis(250)),
        Some(x) => match interval_outcome(x) {
            IntervalOutcome::Millis(n) => Ok(duration_of_millis(n)),
            IntervalOutcome::Secs(n) => Ok(duration_of_secs(n)),
            IntervalOutcome::Refused(m) => Err(subject + ": "@ + m),
        },
    }
}

pub open spec fn both_program_text(id: Seq<char>) -> Seq<char> {
    at_text(id)
        + ": declares both `command` and `script` — a pane runs one program; keep the `script` body or the `command` argv, not both"@
}


/// The shell mode a pane's program runs under, or why it has none:
/// its script's ladder, or its command under the resolved shell.
pub open spec fn program_mode(decl: PaneDecl, defaults: PaneDecl, sh: ModeView, dsh: ModeView, id: Seq<char>) -> Result<
    ModeView,
    Seq<char>,
> {
    let inherits = decl.command is None && decl.script is None;
    match effective_script(decl, defaults) {
        Some(body) => match ladder_spec(body, decl.shell, first_of(decl.shell, defaults.shell), sh, at_text(id), "pane"@) {
            Err(e) => Err(e),
            Ok(mode) => if shebang_spec(body.text@) is None && inherits && sh != dsh {
                Err(inherited_script_text(id, dsh, sh))
            } else {
                Ok(mode)
            },
        },
        None => if inherits && sh != dsh {
            Err(inherited_command_text(id, dsh, sh))
        } else {
            match first_of(decl.command, defaults.command) {
                Some(c) => if c@.len() == 0 { Err(no_program_text(id)) } else { Ok(sh) },
                None => Err(no_program_text(id)),
            }
        },
    }
}

/// The pane's shell and the defaults' shell, resolved — or the first
/// refusal: a deferred reference in the dialect name, or a name that
/// expands to nothing.
pub open spec fn shells_result(decl: PaneDecl, defaults: PaneDecl, block: VariableBlock, b: Bindings, id: Seq<char>) -> Result<
    (ModeView, ModeView),
    Seq<char>,
> {
    let subject = at_text(id);
    let dsh_decl = match defaults.shell {
        Some(x) => x,
        None => ShellDecl::Direct,
    };
    let sh_decl = match decl.shell {
        Some(x) => x,
        None => dsh_decl,
    };
    let shell_site: Option<(ShellDecl, bool)> = match decl.shell {
        Some(x) => Some((x, false)),
        None => match defaults.shell {
            Some(x) => Some((x, true)),
            None => None,
        },
    };
    let site_refusal: Option<Seq<char>> = match shell_site {
        Some((ShellDecl::Named(t), inherited)) => match first_deferred(t.refs@, block, 0) {
            Some(n) => Some(deferred_site_text(subject, "shell"@, inherited, n)),
            None => None,
        },
        _ => None,
    };
    if site_refusal is Some {
        Err(site_refusal->0)
    } else {
        match crate::registry::resolve_spec(sh_decl, b) {
            Err(d) => Err(subject + ": "@ + crate::registry::empty_shell_text(d)),
            Ok(sh) => match crate::registry::resolve_spec(dsh_decl, b) {
                Err(d) => Err(subject + ": "@ + crate::registry::empty_shell_text(d)),
                Ok(dsh) => Ok((sh, dsh)),
            },
        }
    }
}

/// The mode the program runs under, after refusing `command` beside
/// `script`.
pub open spec fn program_result(decl: PaneDecl, defaults: PaneDecl, sh: ModeView, dsh: ModeView, id: Seq<char>) -> Result<
    ModeView,
    Seq<char>,
> {
    if decl.command is Some && decl.script is Some {
        Err(both_program_text(id))
    } else {
        program_mode(decl, defaults, sh, dsh, id)
    }
}

/// The triggers' paths, the interval and the debounce — or the first
/// refusal among them, in that order.
pub open spec fn timing_result(decl: PaneDecl, defaults: PaneDecl, block: VariableBlock, b: Bindings, id: Seq<char>) -> Result<
    (Option<std::time::Duration>, Seq<Seq<char>>, std::time::Duration),
    Seq<char>,
> {
    let subject = at_text(id);
    match picked_triggers(decl, defaults, block, b, subject) {
        Err(e) => Err(e),
        Ok(paths) => match picked_token(decl.interval, defaults.interval, "interval"@, block, b, subject) {
            Err(e) => Err(e),
            Ok(itok) => match interval_choice(itok, paths.len() > 0, subject) {
                Err(e) => Err(e),
                Ok(interval) => match picked_token(
                    decl.trigger_debounce,
                    defaults.trigger_debounce,
                    "trigger-debounce"@,
                    block,
                    b,
                    subject,
                ) {
                    Err(e) => Err(e),
                    Ok(dtok) => match debounce_choice(dtok, subject) {
                        Err(e) => Err(e),
                        Ok(debounce) => Ok((interval, paths, debounce)),
                    },
                },
            },
        },
    }
}

/// What a pane's source resolves to — its mode, interval, watched
/// paths and debounce — or the first refusal, in the order the checks
/// run: the shell site, both shells, `command` beside `script`, the
/// program, the triggers, the interval, the debounce.
pub open spec fn source_result(decl: PaneDecl, defaults: PaneDecl, block: VariableBlock, b: Bindings, id: Seq<char>) -> Result<
    (ModeView, Option<std::time::Duration>, Seq<Seq<char>>, std::time::Duration),
    Seq<char>,
> {
    match shells_result(decl, defaults, block, b, id) {
        Err(e) => Err(e),
        Ok((sh, dsh)) => match program_result(decl, defaults, sh, dsh, id) {
            Err(e) => Err(e),
            Ok(mode) => match timing_result(decl, defaults, block, b, id) {
                Err(e) => Err(e),
                Ok((interval, paths, debounce)) => Ok((mode, interval, paths, debounce)),
            },
        },
    }
}

/// The pane's shell and the defaults' shell, each resolved.
fn resolve_shells(
    decl: &PaneDecl,
    defaults: &PaneDecl,
    block: &VariableBlock,
    bindings: &Bindings,
    id: &str,
) -> (r: Result<(ShellMode, ShellMode), String>)
    ensures
        match shells_result(*decl, *defaults, *block, *bindings, id@) {
            Err(m) => r is Err && r->Err_0@ == m,
            Ok((sh, dsh)) => r is Ok && (r->Ok_0).0@ == sh && (r->Ok_0).1@ == dsh,
        },
{
    let subject = at(id);
    match inherit(decl.shell.as_ref(), defaults.shell.as_ref()) {
        Some((ShellDecl::Named(name), inherited)) => {
            match refuse_deferred_at_load_site(name, "shell", inherited, block, subject.as_str()) {
                Ok(()) => {},
                Err(e) => return Err(e),
            }
        },
        _ => {},
    }
    let defaults_shell = match &defaults.shell {
        Some(s) => s.duplicate(),
        None => ShellDecl::Direct,
    };
    let shell = match &decl.shell {
        Some(s) => s.duplicate(),
        None => defaults_shell.duplicate(),
    };
    let resolved_shell = match shell.resolve(bindings) {
        Ok(m) => m,
        Err(e) => {
            let msg = e.message();
            return Err(in_context(subject.as_str(), msg.as_str()));
        },
    };
    let resolved_defaults_shell = match defaults_shell.resolve(bindings) {
        Ok(m) => m,
        Err(e) => {
            let msg = e.message();
            return Err(in_context(subject.as_str(), msg.as_str()));
        },
    };
    Ok((resolved_shell, resolved_defaults_shell))
}

/// The program a pane runs, and the mode it runs under.
fn resolve_program(
    decl: &PaneDecl,
    defaults: &PaneDecl,
    resolved_shell: ShellMode,
    resolved_defaults_shell: &ShellMode,
    id: &str,
) -> (r: Result<(SourceProgram, ShellMode), String>)
    ensures
        match program_result(*decl, *defaults, resolved_shell@, resolved_defaults_shell@, id@) {
            Err(m) => r is Err && r->Err_0@ == m,
            Ok(mode) => r is Ok && (r->Ok_0).1@ == mode && match effective_script(*decl, *defaults) {
                Some(body) => (r->Ok_0).0 matches SourceProgram::Script(t) && t.text == body.text
                    && t.refs@ == body.refs@ && t.interpolating == body.interpolating,
                None => (r->Ok_0).0 matches SourceProgram::Argv(argv)
                    && same_templates(argv@, first_of(decl.command, defaults.command)->0@),
            },
        },
{
    if decl.command.is_some() && decl.script.is_some() {
        let mut m = at(id);
        m.append(": declares both `command` and `script` — a pane runs one program; keep the `script` body or the `command` argv, not both");
        return Err(m);
    }
    let inherits_program = decl.command.is_none() && decl.script.is_none();
    let script: Option<&Template> = match &decl.script {
        Some(s) => Some(s),
        None => if decl.command.is_none() {
            match &defaults.script {
                Some(s) => Some(s),
                None => None,
            }
        } else {
            None
        },
    };
    let (program, mode) = match script {
        Some(body) => {
            match resolve_script(body, decl, defaults, &resolved_shell, &resolved_defaults_shell, inherits_program, id) {
                Ok(pm) => pm,
                Err(e) => return Err(e),
            }
        },
        None => {
            if inherits_program && !resolved_shell.same_as(&resolved_defaults_shell) {
                let mut m = at(id);
                m.append(": inherits `command` from `defaults` but overrides `shell` — the inherited command was read and written under the defaults' shell mode (");
                let a = mode_label(&resolved_defaults_shell);
                m.append(a.as_str());
                m.append("), not this pane's (");
                let b = mode_label(&resolved_shell);
                m.append(b.as_str());
                m.append("); declare the pane's own `command`");
                return Err(m);
            }
            let command: Option<&Vec<Template>> = match &decl.command {
                Some(c) => Some(c),
                None => match &defaults.command {
                    Some(c) => Some(c),
                    None => None,
                },
            };
            match command {
                Some(words) => {
                    if words.len() == 0 {
                        let mut m = at(id);
                        m.append(": needs a `command` or a `script`");
                        return Err(m);
                    }
                    (SourceProgram::Argv(copy_templates(words)), resolved_shell)
                },
                None => {
                    let mut m = at(id);
                    m.append(": needs a `command` or a `script`");
                    return Err(m);
                },
            }
        },
    };
    Ok((program, mode))
}

/// A pane's triggers, interval and debounce.
fn resolve_timing(
    decl: &PaneDecl,
    defaults: &PaneDecl,
    block: &VariableBlock,
    bindings: &Bindings,
    id: &str,
) -> (r: Result<(Vec<TriggerSpec>, Option<std::time::Duration>, std::time::Duration), String>)
    ensures
        match timing_result(*decl, *defaults, *block, *bindings, id@) {
            Err(m) => r is Err && r->Err_0@ == m,
            Ok((interval, paths, debounce)) => r is Ok && trigger_paths((r->Ok_0).0@) == paths
                && (r->Ok_0).1 == interval && (r->Ok_0).2 == debounce,
        },
{
    let subject = at(id);
    let picked_triggers = inherit(decl.trigger.as_ref(), defaults.trigger.as_ref());
    let triggers = match resolve_triggers(picked_triggers, block, bindings, id) {
        Ok(t) => t,
        Err(e) => return Err(e),
    };
    let token = match load_token(inherit(decl.interval.as_ref(), defaults.interval.as_ref()), "interval", block, bindings, id) {
        Ok(t) => t,
        Err(e) => return Err(e),
    };
    let interval = match token {
        Some(t) => {
            let tv = chars_of(t.as_str());
            if crate::text::chars_eq(tv.as_slice(), "never") {
                None
            } else {
                match parse_interval(t.as_str()) {
                    Ok(d) => Some(d),
                    Err(e) => return Err(in_context(subject.as_str(), e.as_str())),
                }
            }
        },
        None => if triggers.len() == 0 {
            Some(from_secs(2))
        } else {
            None
        },
    };
    let debounce_token = match load_token(
        inherit(decl.trigger_debounce.as_ref(), defaults.trigger_debounce.as_ref()),
        "trigger-debounce",
        block,
        bindings,
        id,
    ) {
        Ok(t) => t,
        Err(e) => return Err(e),
    };
    let debounce = match debounce_token {
        Some(t) => match parse_interval(t.as_str()) {
            Ok(d) => d,
            Err(e) => return Err(in_context(subject.as_str(), e.as_str())),
        },
        None => from_millis(250),
    };
    Ok((triggers, interval, debounce))
}

/// A pane's source: its program and shell, its triggers, interval and
/// debounce — inherited from `defaults` key by key, each load-time
/// site checked and expanded before its parser reads it.
/// The source a pane declares: its id, its program as written, its
/// shell, interval, triggers and debounce as `source_result` gives them.
pub open spec fn source_built(decl: PaneDecl, defaults: PaneDecl, block: VariableBlock, b: Bindings, id: Seq<char>, s: SourceSpec) -> bool {
    match source_result(decl, defaults, block, b, id) {
        Err(_) => false,
        Ok((mode, interval, paths, debounce)) => {
            &&& s.id@ == id
            &&& s.live == flag_of(decl.live, defaults.live, false)
            &&& match effective_script(decl, defaults) {
                Some(body) => s.program matches SourceProgram::Script(t) && t.text == body.text && t.refs@ == body.refs@
                    && t.interpolating == body.interpolating,
                None => s.program matches SourceProgram::Argv(argv) && same_templates(
                    argv@,
                    first_of(decl.command, defaults.command)->0@,
                ),
            }
            &&& s.shell@ == mode
            &&& s.interval == interval
            &&& trigger_paths(s.triggers@) == paths
            &&& s.debounce == debounce
        },
    }
}

pub fn resolve_source(
    decl: &PaneDecl,
    defaults: &PaneDecl,
    block: &VariableBlock,
    bindings: &Bindings,
    id: &str,
) -> (r: Result<SourceSpec, String>)
    ensures
        match source_result(*decl, *defaults, *block, *bindings, id@) {
            Err(m) => r is Err && r->Err_0@ == m,
            Ok(_) => r is Ok && source_built(*decl, *defaults, *block, *bindings, id@, r->Ok_0),
        },
{
    let (resolved_shell, resolved_defaults_shell) = match resolve_shells(decl, defaults, block, bindings, id) {
        Ok(p) => p,
        Err(e) => return Err(e),
    };
    let live = pick_flag(decl.live, defaults.live, false);
    let (program, mode) = match resolve_program(decl, defaults, resolved_shell, &resolved_defaults_shell, id) {
        Ok(p) => p,
        Err(e) => return Err(e),
    };
    let (triggers, interval, debounce) = match resolve_timing(decl, defaults, block, bindings, id) {
        Ok(t) => t,
        Err(e) => return Err(e),
    };
    Ok(SourceSpec { id: String::from_str(id), program, shell: mode, interval, triggers, debounce, live })
}

} // verus!

verus! {

pub open spec fn needs_height_text(id: Seq<char>) -> Seq<char> {
    at_text(id) + ": needs a `height` — declare one on the pane or in `defaults`"@
}

/// The width a token asks for: `auto` and no token are one share.
pub open spec fn width_choice(tok: Option<Seq<char>>, id: Seq<char>) -> Result<PaneWidth, Seq<char>> {
    match tok {
        None => Ok(PaneWidth::Weight(1)),
        Some(x) => if x == "auto"@ {
            Ok(PaneWidth::Weight(1))
        } else {
            match width_spec(x) {
                Some(w) => Ok(w),
                None => Err(at_text(id) + ": invalid width "@ + debug_str(x) + ": expected CELLS, Nfr, or auto"@),
            }
        },
    }
}

pub open spec fn live_keep_top_text(id: Seq<char>) -> Seq<char> {
    at_text(id)
        + ": `overflow \"keep-top\"` cannot be combined with `live`: a live pane is read at its tail, and keeping the head silently disables the `D` and `c` change markers. Use `overflow \"keep-bottom\"`, or drop `live`."@
}

/// The overflow a token asks for: a live pane keeps its tail by
/// default and may not ask to keep its head.
pub open spec fn overflow_choice(tok: Option<Seq<char>>, live: bool, id: Seq<char>) -> Result<Overflow, Seq<char>> {
    match tok {
        None => Ok(if live { Overflow::KeepBottom } else { Overflow::KeepTop }),
        Some(x) => match overflow_spec(x) {
            None => Err(at_text(id) + ": unknown overflow "@ + debug_str(x) + ": expected keep-top or keep-bottom"@),
            Some(o) => if live && o == Overflow::KeepTop { Err(live_keep_top_text(id)) } else { Ok(o) },
        },
    }
}

/// The border a token names; none without one.
pub open spec fn border_choice(tok: Option<Seq<char>>, id: Seq<char>) -> Result<BorderPreset, Seq<char>> {
    match tok {
        None => Ok(BorderPreset::NoBorder),
        Some(x) => match preset_named_from(x, 0) {
            Some(b) => Ok(b),
            None => Err(at_text(id) + ": unknown border "@ + debug_str(x) + ": expected one of "@ + preset_names_text()),
        },
    }
}

/// The padding a token spells; none without one.
pub open spec fn padding_choice(tok: Option<Seq<char>>, id: Seq<char>) -> Result<Sides, Seq<char>> {
    match tok {
        None => Ok(Sides { top: 0, right: 0, bottom: 0, left: 0 }),
        Some(x) => match sides_spec(x) {
            Some(sd) => Ok(sd),
            None => Err(at_text(id) + ": "@ + crate::box_model::sides_error(x)),
        },
    }
}

/// A keyed token read with inheritance, then parsed by `choice`.
pub open spec fn width_result(decl: PaneDecl, defaults: PaneDecl, block: VariableBlock, b: Bindings, id: Seq<char>) -> Result<PaneWidth, Seq<char>> {
    match picked_token(decl.width, defaults.width, "width"@, block, b, at_text(id)) {
        Err(e) => Err(e),
        Ok(t) => width_choice(t, id),
    }
}

pub open spec fn overflow_result(decl: PaneDecl, defaults: PaneDecl, block: VariableBlock, b: Bindings, id: Seq<char>) -> Result<Overflow, Seq<char>> {
    match picked_token(decl.overflow, defaults.overflow, "overflow"@, block, b, at_text(id)) {
        Err(e) => Err(e),
        Ok(t) => overflow_choice(t, flag_of(decl.live, defaults.live, false), id),
    }
}

pub open spec fn border_result(decl: PaneDecl, defaults: PaneDecl, block: VariableBlock, b: Bindings, id: Seq<char>) -> Result<BorderPreset, Seq<char>> {
    match picked_token(decl.border, defaults.border, "border"@, block, b, at_text(id)) {
        Err(e) => Err(e),
        Ok(t) => border_choice(t, id),
    }
}

pub open spec fn padding_result(decl: PaneDecl, defaults: PaneDecl, block: VariableBlock, b: Bindings, id: Seq<char>) -> Result<Sides, Seq<char>> {
    match picked_token(decl.padding, defaults.padding, "padding"@, block, b, at_text(id)) {
        Err(e) => Err(e),
        Ok(t) => padding_choice(t, id),
    }
}

/// What a pane's box resolves to — height, width, overflow, border,
/// padding and title — or the first refusal, in that order.
pub open spec fn box_result(decl: PaneDecl, defaults: PaneDecl, block: VariableBlock, b: Bindings, id: Seq<char>) -> Result<
    (u16, PaneWidth, Overflow, BorderPreset, Sides, Option<Seq<char>>),
    Seq<char>,
> {
    match first_of(decl.height, defaults.height) {
        None => Err(needs_height_text(id)),
        Some(height) => match width_result(decl, defaults, block, b, id) {
            Err(e) => Err(e),
            Ok(width) => match overflow_result(decl, defaults, block, b, id) {
                Err(e) => Err(e),
                Ok(overflow) => match border_result(decl, defaults, block, b, id) {
                    Err(e) => Err(e),
                    Ok(border) => match padding_result(decl, defaults, block, b, id) {
                        Err(e) => Err(e),
                        Ok(padding) => match picked_token(decl.title, defaults.title, "title"@, block, b, at_text(id)) {
                            Err(e) => Err(e),
                            Ok(title) => Ok((height, width, overflow, border, padding, title)),
                        },
                    },
                },
            },
        },
    }
}

fn box_width(decl: &PaneDecl, defaults: &PaneDecl, block: &VariableBlock, bindings: &Bindings, id: &str) -> (r: Result<PaneWidth, String>)
    ensures
        match width_result(*decl, *defaults, *block, *bindings, id@) {
            Err(m) => r is Err && r->Err_0@ == m,
            Ok(w) => r == Ok::<PaneWidth, String>(w),
        },
{
    let width_token = match load_token(inherit(decl.width.as_ref(), defaults.width.as_ref()), "width", block, bindings, id) {
        Ok(t) => t,
        Err(e) => return Err(e),
    };
    match width_token {
        None => Ok(PaneWidth::Weight(1)),
        Some(t) => {
            let tv = chars_of(t.as_str());
            if crate::text::chars_eq(tv.as_slice(), "auto") {
                Ok(PaneWidth::Weight(1))
            } else {
                parse_width(t.as_str(), id)
            }
        },
    }
}

fn box_overflow(decl: &PaneDecl, defaults: &PaneDecl, block: &VariableBlock, bindings: &Bindings, id: &str) -> (r: Result<Overflow, String>)
    ensures
        match overflow_result(*decl, *defaults, *block, *bindings, id@) {
            Err(m) => r is Err && r->Err_0@ == m,
            Ok(o) => r == Ok::<Overflow, String>(o),
        },
{
    let live = pick_flag(decl.live, defaults.live, false);
    let overflow_text = match load_token(inherit(decl.overflow.as_ref(), defaults.overflow.as_ref()), "overflow", block, bindings, id) {
        Ok(t) => t,
        Err(e) => return Err(e),
    };
    match overflow_text {
        None => Ok(if live { Overflow::KeepBottom } else { Overflow::KeepTop }),
        Some(t) => {
            let declared = match overflow_token(t.as_str(), id) {
                Ok(o) => o,
                Err(e) => return Err(e),
            };
            if live && declared == Overflow::KeepTop {
                let mut m = at(id);
                m.append(": `overflow \"keep-top\"` cannot be combined with `live`: a live pane is read at its tail, and keeping the head silently disables the `D` and `c` change markers. Use `overflow \"keep-bottom\"`, or drop `live`.");
                return Err(m);
            }
            Ok(declared)
        },
    }
}

fn box_border(decl: &PaneDecl, defaults: &PaneDecl, block: &VariableBlock, bindings: &Bindings, id: &str) -> (r: Result<BorderPreset, String>)
    ensures
        match border_result(*decl, *defaults, *block, *bindings, id@) {
            Err(m) => r is Err && r->Err_0@ == m,
            Ok(bd) => r == Ok::<BorderPreset, String>(bd),
        },
{
    let border_text = match load_token(inherit(decl.border.as_ref(), defaults.border.as_ref()), "border", block, bindings, id) {
        Ok(t) => t,
        Err(e) => return Err(e),
    };
    match border_text {
        None => Ok(BorderPreset::NoBorder),
        Some(t) => parse_border(t.as_str(), id),
    }
}

fn box_padding(decl: &PaneDecl, defaults: &PaneDecl, block: &VariableBlock, bindings: &Bindings, id: &str) -> (r: Result<Sides, String>)
    ensures
        match padding_result(*decl, *defaults, *block, *bindings, id@) {
            Err(m) => r is Err && r->Err_0@ == m,
            Ok(sd) => r == Ok::<Sides, String>(sd),
        },
{
    let padding_text = match load_token(inherit(decl.padding.as_ref(), defaults.padding.as_ref()), "padding", block, bindings, id) {
        Ok(t) => t,
        Err(e) => return Err(e),
    };
    match padding_text {
        None => Ok(Sides::default()),
        Some(t) => match parse_sides(t.as_str()) {
            Ok(sd) => Ok(sd),
            Err(e) => {
                let subject = at(id);
                Err(in_context(subject.as_str(), e.as_str()))
            },
        },
    }
}

/// A pane's box: its height, width, overflow, border, padding, title
/// and flags — each inherited from `defaults` key by key, each
/// load-time site checked and expanded before its parser reads it.
/// The box a pane declares: height, width, overflow, border, padding
/// and title as `box_result` gives them, and its three flags.
pub open spec fn box_built(decl: PaneDecl, defaults: PaneDecl, block: VariableBlock, b: Bindings, id: Seq<char>, bx: PaneBox) -> bool {
    match box_result(decl, defaults, block, b, id) {
        Err(_) => false,
        Ok((height, width, overflow, border, padding, title)) => {
            &&& bx.height == height
            &&& bx.width == width
            &&& bx.overflow == overflow
            &&& bx.border == border
            &&& bx.padding == padding
            &&& match title {
                None => bx.title is None,
                Some(t) => bx.title is Some && bx.title->0@ == t,
            }
            &&& bx.chrome == flag_of(decl.chrome, defaults.chrome, true)
            &&& bx.focusable == flag_of(decl.focusable, defaults.focusable, true)
            &&& bx.selectable == selectable_spec(decl, defaults)
        },
    }
}

pub fn resolve_box(
    decl: &PaneDecl,
    defaults: &PaneDecl,
    block: &VariableBlock,
    bindings: &Bindings,
    id: &str,
) -> (r: Result<PaneBox, String>)
    ensures
        match box_result(*decl, *defaults, *block, *bindings, id@) {
            Err(m) => r is Err && r->Err_0@ == m,
            Ok(_) => r is Ok && box_built(*decl, *defaults, *block, *bindings, id@, r->Ok_0),
        },
{
    let height = match decl.height {
        Some(h) => h,
        None => match defaults.height {
            Some(h) => h,
            None => {
                let mut m = at(id);
                m.append(": needs a `height` — declare one on the pane or in `defaults`");
                return Err(m);
            },
        },
    };
    let width = match box_width(decl, defaults, block, bindings, id) {
        Ok(w) => w,
        Err(e) => return Err(e),
    };
    let overflow = match box_overflow(decl, defaults, block, bindings, id) {
        Ok(o) => o,
        Err(e) => return Err(e),
    };
    let border = match box_border(decl, defaults, block, bindings, id) {
        Ok(bd) => bd,
        Err(e) => return Err(e),
    };
    let padding = match box_padding(decl, defaults, block, bindings, id) {
        Ok(sd) => sd,
        Err(e) => return Err(e),
    };
    let title = match load_token(inherit(decl.title.as_ref(), defaults.title.as_ref()), "title", block, bindings, id) {
        Ok(t) => t,
        Err(e) => return Err(e),
    };
    Ok(PaneBox {
        height,
        width,
        overflow,
        border,
        padding,
        title,
        chrome: pick_flag(decl.chrome, defaults.chrome, true),
        focusable: pick_flag(decl.focusable, defaults.focusable, true),
        selectable: selectable(decl, defaults),
    })
}

} // verus!

verus! {

/// The names as char sequences.
pub open spec fn name_views(names: Seq<String>) -> Seq<Seq<char>> {
    names.map_values(|s: String| s@)
}

/// The first position from `i` on holding `wanted` and not yet placed.
pub open spec fn first_free(names: Seq<String>, placed: Seq<bool>, wanted: Seq<char>, i: int) -> int
    decreases names.len() - i,
{
    if i < 0 || i >= names.len() {
        names.len() as int
    } else if names[i]@ == wanted && !placed[i] {
        i
    } else {
        first_free(names, placed, wanted, i + 1)
    }
}

proof fn lemma_first_free(names: Seq<String>, placed: Seq<bool>, wanted: Seq<char>, i: int)
    requires
        0 <= i <= names.len(),
        placed.len() == names.len(),
    ensures
        i <= first_free(names, placed, wanted, i) <= names.len(),
        first_free(names, placed, wanted, i) < names.len() ==> names[first_free(names, placed, wanted, i)]@ == wanted
            && !placed[first_free(names, placed, wanted, i)],
    decreases names.len() - i,
{
    if i < names.len() && !(names[i]@ == wanted && !placed[i]) {
        lemma_first_free(names, placed, wanted, i + 1);
    }
}

/// The first position holding `wanted` and not yet placed, or the length.
fn find_free(names: &[String], placed: &Vec<bool>, wanted: &str) -> (i: usize)
    requires
        placed@.len() == names@.len(),
    ensures
        i as int == first_free(names@, placed@, wanted@, 0),
        i <= names@.len(),
        i < names@.len() ==> names@[i as int]@ == wanted@ && !placed@[i as int],
{
    let mut i: usize = 0;
    proof { lemma_first_free(names@, placed@, wanted@, 0); }
    while i < names.len()
        invariant
            i <= names@.len(),
            placed@.len() == names@.len(),
            first_free(names@, placed@, wanted@, 0) == first_free(names@, placed@, wanted@, i as int),
        decreases names@.len() - i,
    {
        let v = chars_of(names[i].as_str());
        if crate::text::chars_eq(v.as_slice(), wanted) && !placed[i] {
            return i;
        }
        i = i + 1;
    }
    i
}

/// Whether any name is `wanted`.
pub fn names_contain(names: &[String], wanted: &str) -> (b: bool)
    ensures
        b == name_views(names@).contains(wanted@),
{
    let mut i: usize = 0;
    while i < names.len()
        invariant
            i <= names@.len(),
            forall|k: int| 0 <= k < i ==> names@[k]@ != wanted@,
        decreases names@.len() - i,
    {
        let v = chars_of(names[i].as_str());
        if crate::text::chars_eq(v.as_slice(), wanted) {
            assert(name_views(names@)[i as int] == wanted@);
            return true;
        }
        i = i + 1;
    }
    proof {
        if name_views(names@).contains(wanted@) {
            let k = choose|k: int| 0 <= k < name_views(names@).len() && name_views(names@)[k] == wanted@;
            assert(names@[k]@ == wanted@);
        }
    }
    false
}

pub open spec fn more_times_text(wanted: Seq<char>) -> Seq<char> {
    "layout places pane "@ + debug_str(wanted) + " more times than it is declared"@
}

pub open spec fn unknown_pane_text(wanted: Seq<char>, names: Seq<String>) -> Seq<char> {
    "layout names unknown pane "@ + debug_str(wanted) + ": declared panes are "@ + joined(name_views(names), ", "@)
}

/// What resolving `decl` leaves placed, given `placed` before, or why
/// it is refused.
pub open spec fn node_outcome(decl: LayoutDecl, names: Seq<String>, placed: Seq<bool>) -> Result<Seq<bool>, Seq<char>>
    decreases decl, 0int,
{
    match decl {
        LayoutDecl::Pane(w) => {
            let i = first_free(names, placed, w@, 0);
            if i < names.len() {
                Ok(placed.update(i, true))
            } else if name_views(names).contains(w@) {
                Err(more_times_text(w@))
            } else {
                Err(unknown_pane_text(w@, names))
            }
        },
        LayoutDecl::Row(cells) => if cells@.len() == 0 {
            Err("layout has an empty row"@)
        } else {
            proof {
                assert(decreases_to!(decl => cells));
                assert(decreases_to!(cells => cells@));
            }
            decls_outcome(cells@, 0, names, placed)
        },
        LayoutDecl::Column(cells) => if cells@.len() == 0 {
            Err("layout has an empty column"@)
        } else {
            proof {
                assert(decreases_to!(decl => cells));
                assert(decreases_to!(cells => cells@));
            }
            decls_outcome(cells@, 0, names, placed)
        },
    }
}

/// The cells from `i` on, resolved in order.
pub open spec fn decls_outcome(cells: Seq<LayoutDecl>, i: int, names: Seq<String>, placed: Seq<bool>) -> Result<
    Seq<bool>,
    Seq<char>,
>
    decreases cells, cells.len() - i,
{
    if i < 0 || i >= cells.len() {
        Ok(placed)
    } else {
        match node_outcome(cells[i], names, placed) {
            Err(e) => Err(e),
            Ok(p) => decls_outcome(cells, i + 1, names, p),
        }
    }
}

/// The engine's node for `decl`: the same shape, each name the first
/// declared pane with that id not placed before it.
pub open spec fn node_shaped(decl: LayoutDecl, node: LayoutNode, names: Seq<String>, placed: Seq<bool>) -> bool
    decreases decl, 0int,
{
    match decl {
        LayoutDecl::Pane(w) => node == LayoutNode::Pane(SourceId(first_free(names, placed, w@, 0) as usize)),
        LayoutDecl::Row(cells) => {
            proof {
                assert(decreases_to!(decl => cells));
                assert(decreases_to!(cells => cells@));
            }
            node matches LayoutNode::Row(ch) && ch@.len() == cells@.len() && decls_shaped(cells@, ch@, 0, names, placed)
        },
        LayoutDecl::Column(cells) => {
            proof {
                assert(decreases_to!(decl => cells));
                assert(decreases_to!(cells => cells@));
            }
            node matches LayoutNode::Column(ch) && ch@.len() == cells@.len() && decls_shaped(cells@, ch@, 0, names, placed)
        },
    }
}

/// The nodes `ch` from `i` on are the cells', in order.
pub open spec fn decls_shaped(cells: Seq<LayoutDecl>, ch: Seq<LayoutNode>, i: int, names: Seq<String>, placed: Seq<bool>) -> bool
    decreases cells, cells.len() - i,
{
    if i < 0 || i >= cells.len() {
        true
    } else {
        &&& i < ch.len()
        &&& node_shaped(cells[i], ch[i], names, placed)
        &&& match node_outcome(cells[i], names, placed) {
            Ok(p) => decls_shaped(cells, ch, i + 1, names, p),
            Err(_) => false,
        }
    }
}

/// One declared node becomes the engine's: a name resolves to the
/// first declared pane with that id not yet placed.
pub fn resolve_node(decl: &LayoutDecl, names: &[String], placed: &mut Vec<bool>) -> (r: Result<LayoutNode, String>)
    requires
        old(placed)@.len() == names@.len(),
    ensures
        final(placed)@.len() == names@.len(),
        forall|i: int| 0 <= i < names@.len() && old(placed)@[i] ==> final(placed)@[i],
        r is Ok ==> forall|k: int| 0 <= k < layout_ids(r->Ok_0).len() ==> (#[trigger] layout_ids(r->Ok_0)[k]).0
            < names@.len() && final(placed)@[layout_ids(r->Ok_0)[k].0 as int],
        match node_outcome(*decl, names@, old(placed)@) {
            Err(m) => r is Err && r->Err_0@ == m,
            Ok(p) => r is Ok && final(placed)@ == p && node_shaped(*decl, r->Ok_0, names@, old(placed)@),
        },
    decreases decl,
{
    match decl {
        LayoutDecl::Pane(wanted) => {
            let i = find_free(names, placed, wanted.as_str());
            if i < names.len() {
                placed.set(i, true);
                let node = LayoutNode::Pane(SourceId(i));
                assert(layout_ids(node) == seq![SourceId(i)]);
                return Ok(node);
            }
            if names_contain(names, wanted.as_str()) {
                let mut m = String::from_str("layout places pane ");
                let q = debug_quote(wanted.as_str());
                m.append(q.as_str());
                m.append(" more times than it is declared");
                Err(m)
            } else {
                let mut m = String::from_str("layout names unknown pane ");
                let q = debug_quote(wanted.as_str());
                m.append(q.as_str());
                m.append(": declared panes are ");
                let all = join_strings(names, ", ");
                m.append(all.as_str());
                assert(names@.map_values(|s: String| s@) =~= name_views(names@));
                Err(m)
            }
        },
        LayoutDecl::Row(cells) => {
            if cells.len() == 0 {
                return Err(String::from_str("layout has an empty row"));
            }
            match resolve_cells(cells, names, placed) {
                Ok(v) => {
                    let ghost ids = children_ids(v@);
                    let node = LayoutNode::Row(v);
                    assert(layout_ids(node) == ids);
                    Ok(node)
                },
                Err(e) => Err(e),
            }
        },
        LayoutDecl::Column(cells) => {
            if cells.len() == 0 {
                return Err(String::from_str("layout has an empty column"));
            }
            match resolve_cells(cells, names, placed) {
                Ok(v) => {
                    let ghost ids = children_ids(v@);
                    let node = LayoutNode::Column(v);
                    assert(layout_ids(node) == ids);
                    Ok(node)
                },
                Err(e) => Err(e),
            }
        },
    }
}

proof fn lemma_children_ids_push(children: Seq<LayoutNode>, c: LayoutNode)
    ensures
        children_ids(children.push(c)) == children_ids(children) + layout_ids(c),
{
    assert(children.push(c).drop_last() =~= children);
}

/// Every cell resolved, in order.
fn resolve_cells(cells: &Vec<LayoutDecl>, names: &[String], placed: &mut Vec<bool>) -> (r: Result<Vec<LayoutNode>, String>)
    requires
        old(placed)@.len() == names@.len(),
    ensures
        final(placed)@.len() == names@.len(),
        forall|i: int| 0 <= i < names@.len() && old(placed)@[i] ==> final(placed)@[i],
        cells@.len() == 0 ==> r is Ok,
        r is Ok ==> r->Ok_0@.len() == cells@.len(),
        match decls_outcome(cells@, 0, names@, old(placed)@) {
            Err(m) => r is Err && r->Err_0@ == m,
            Ok(p) => r is Ok && final(placed)@ == p && decls_shaped(cells@, r->Ok_0@, 0, names@, old(placed)@),
        },
        r is Ok ==> forall|k: int| 0 <= k < children_ids(r->Ok_0@).len() ==> (#[trigger] children_ids(
            r->Ok_0@)[k]).0 < names@.len() && final(placed)@[children_ids(r->Ok_0@)[k].0 as int],
    decreases cells,
{
    let mut out: Vec<LayoutNode> = Vec::new();
    let mut i: usize = 0;
    while i < cells.len()
        invariant
            i <= cells@.len(),
            placed@.len() == names@.len(),
            out@.len() == i,
            forall|j: int| 0 <= j < names@.len() && old(placed)@[j] ==> placed@[j],
            forall|k: int| 0 <= k < children_ids(out@).len() ==> (#[trigger] children_ids(out@)[k]).0 < names@.len()
                && placed@[children_ids(out@)[k].0 as int],
            decls_outcome(cells@, 0, names@, old(placed)@) == decls_outcome(cells@, i as int, names@, placed@),
            forall|ch: Seq<LayoutNode>| ch.len() == cells@.len() && ch.take(i as int) == out@ && #[trigger] decls_shaped(
                cells@, ch, i as int, names@, placed@) ==> decls_shaped(cells@, ch, 0, names@, old(placed)@),
        decreases cells@.len() - i,
    {
        let ghost mid = placed@;
        let ghost prev_out = out@;
        proof {
            assert(decreases_to!(*cells => cells@));
        }
        let node = match resolve_node(&cells[i], names, placed) {
            Ok(n) => n,
            Err(e) => return Err(e),
        };
        proof {
            lemma_children_ids_push(out@, node);
            let ids = children_ids(out@.push(node));
            assert forall|k: int| 0 <= k < ids.len() implies (#[trigger] ids[k]).0 < names@.len()
                && placed@[ids[k].0 as int] by {
                if k < children_ids(out@).len() {
                    assert(ids[k] == children_ids(out@)[k]);
                } else {
                    assert(ids[k] == layout_ids(node)[k - children_ids(out@).len()]);
                }
            }
        }
        out.push(node);
        proof {
            assert forall|ch: Seq<LayoutNode>| ch.len() == cells@.len() && ch.take(i + 1) == out@ && #[trigger] decls_shaped(
                cells@, ch, i + 1, names@, placed@) implies decls_shaped(cells@, ch, 0, names@, old(placed)@) by {
                assert(ch.take(i as int) =~= prev_out);
                assert(ch[i as int] == out@[i as int]);
                assert(decls_shaped(cells@, ch, i as int, names@, mid));
            }
        }
        i = i + 1;
    }
    proof {
        assert(out@.take(cells@.len() as int) =~= out@);
        assert(decls_outcome(cells@, i as int, names@, placed@) == Ok::<Seq<bool>, Seq<char>>(placed@));
        assert(decls_shaped(cells@, out@, i as int, names@, placed@));
        assert(decls_shaped(cells@, out@, 0, names@, old(placed)@));
    }
    Ok(out)
}

/// The first position not placed, or the length.
pub open spec fn first_unplaced(placed: Seq<bool>, i: int) -> int
    decreases placed.len() - i,
{
    if i < 0 || i >= placed.len() {
        placed.len() as int
    } else if !placed[i] {
        i
    } else {
        first_unplaced(placed, i + 1)
    }
}

proof fn lemma_children_ids_prepend(c: LayoutNode, rest: Seq<LayoutNode>)
    ensures
        children_ids(seq![c] + rest) == layout_ids(c) + children_ids(rest),
    decreases rest.len(),
{
    if rest.len() == 0 {
        assert((seq![c] + rest).drop_last() =~= Seq::<LayoutNode>::empty());
        assert(seq![c] + rest =~= seq![c]);
        assert(children_ids(Seq::<LayoutNode>::empty()) == Seq::<SourceId>::empty());
        assert(layout_ids(c) + Seq::<SourceId>::empty() =~= layout_ids(c));
        assert(Seq::<SourceId>::empty() + layout_ids(c) =~= layout_ids(c));
    } else {
        lemma_children_ids_prepend(c, rest.drop_last());
        assert((seq![c] + rest).drop_last() =~= seq![c] + rest.drop_last());
        assert((seq![c] + rest).last() == rest.last());
        assert(layout_ids(c) + children_ids(rest.drop_last()) + layout_ids(rest.last()) =~= layout_ids(c) + (
        children_ids(rest.drop_last()) + layout_ids(rest.last())));
    }
}

/// Resolving a node places exactly the panes its ids name, each one
/// that was free, each once.
proof fn lemma_node_places(decl: LayoutDecl, node: LayoutNode, names: Seq<String>, placed: Seq<bool>)
    requires
        node_outcome(decl, names, placed) is Ok,
        node_shaped(decl, node, names, placed),
        placed.len() == names.len(),
        names.len() <= usize::MAX,
    ensures
        ({
            let p = node_outcome(decl, names, placed)->Ok_0;
            let ids = layout_ids(node);
            &&& p.len() == placed.len()
            &&& forall|k: int| 0 <= k < ids.len() ==> (#[trigger] ids[k]).0 < names.len() && !placed[ids[k].0 as int]
            &&& forall|j: int| 0 <= j < p.len() ==> (#[trigger] p[j] <==> placed[j] || ids.contains(SourceId(j as usize)))
            &&& ids.no_duplicates()
        }),
    decreases decl, 0int,
{
    match decl {
        LayoutDecl::Pane(w) => {
            lemma_first_free(names, placed, w@, 0);
            let i = first_free(names, placed, w@, 0);
            let ids = layout_ids(node);
            assert(ids == seq![SourceId(i as usize)]);
            let p = node_outcome(decl, names, placed)->Ok_0;
            assert forall|j: int| 0 <= j < p.len() implies (#[trigger] p[j] <==> placed[j] || ids.contains(
                SourceId(j as usize))) by {
                if ids.contains(SourceId(j as usize)) {
                    assert(ids[0] == SourceId(j as usize));
                }
                if j == i {
                    assert(ids[0] == SourceId(j as usize));
                }
            }
        },
        LayoutDecl::Row(cells) => {
            assert(decreases_to!(decl => cells));
            assert(decreases_to!(cells => cells@));
            let ch = node->Row_0;
            lemma_cells_places(cells@, ch@, 0, names, placed);
            assert(ch@.subrange(0, ch@.len() as int) =~= ch@);
        },
        LayoutDecl::Column(cells) => {
            assert(decreases_to!(decl => cells));
            assert(decreases_to!(cells => cells@));
            let ch = node->Column_0;
            lemma_cells_places(cells@, ch@, 0, names, placed);
            assert(ch@.subrange(0, ch@.len() as int) =~= ch@);
        },
    }
}

proof fn lemma_cells_places(cells: Seq<LayoutDecl>, ch: Seq<LayoutNode>, i: int, names: Seq<String>, placed: Seq<bool>)
    requires
        0 <= i <= cells.len(),
        ch.len() == cells.len(),
        decls_outcome(cells, i, names, placed) is Ok,
        decls_shaped(cells, ch, i, names, placed),
        placed.len() == names.len(),
        names.len() <= usize::MAX,
    ensures
        ({
            let p = decls_outcome(cells, i, names, placed)->Ok_0;
            let ids = children_ids(ch.subrange(i, ch.len() as int));
            &&& p.len() == placed.len()
            &&& forall|k: int| 0 <= k < ids.len() ==> (#[trigger] ids[k]).0 < names.len() && !placed[ids[k].0 as int]
            &&& forall|j: int| 0 <= j < p.len() ==> (#[trigger] p[j] <==> placed[j] || ids.contains(SourceId(j as usize)))
            &&& ids.no_duplicates()
        }),
    decreases cells, cells.len() - i,
{
    if i == cells.len() {
        assert(ch.subrange(i, ch.len() as int) =~= Seq::<LayoutNode>::empty());
        assert(children_ids(Seq::<LayoutNode>::empty()) == Seq::<SourceId>::empty());
    } else {
        let p1 = node_outcome(cells[i], names, placed)->Ok_0;
        lemma_node_places(cells[i], ch[i], names, placed);
        lemma_cells_places(cells, ch, i + 1, names, p1);
        let a = layout_ids(ch[i]);
        let b = children_ids(ch.subrange(i + 1, ch.len() as int));
        assert(ch.subrange(i, ch.len() as int) =~= seq![ch[i]] + ch.subrange(i + 1, ch.len() as int));
        lemma_children_ids_prepend(ch[i], ch.subrange(i + 1, ch.len() as int));
        let ids = children_ids(ch.subrange(i, ch.len() as int));
        assert(ids == a + b);
        let p = decls_outcome(cells, i, names, placed)->Ok_0;
        assert forall|k: int| 0 <= k < ids.len() implies (#[trigger] ids[k]).0 < names.len() && !placed[ids[k].0 as int] by {
            if k < a.len() {
                assert(ids[k] == a[k]);
            } else {
                assert(ids[k] == b[k - a.len()]);
                assert(!p1[b[k - a.len()].0 as int]);
            }
        }
        assert forall|j: int| 0 <= j < p.len() implies (#[trigger] p[j] <==> placed[j] || ids.contains(
            SourceId(j as usize))) by {
            assert(p[j] <==> p1[j] || b.contains(SourceId(j as usize)));
            assert(p1[j] <==> placed[j] || a.contains(SourceId(j as usize)));
            if a.contains(SourceId(j as usize)) {
                let k = choose|k: int| 0 <= k < a.len() && a[k] == SourceId(j as usize);
                assert(ids[k] == a[k]);
            }
            if b.contains(SourceId(j as usize)) {
                let k = choose|k: int| 0 <= k < b.len() && b[k] == SourceId(j as usize);
                assert(ids[a.len() + k] == b[k]);
            }
            if ids.contains(SourceId(j as usize)) {
                let k = choose|k: int| 0 <= k < ids.len() && ids[k] == SourceId(j as usize);
                if k < a.len() {
                    assert(a[k] == ids[k]);
                } else {
                    assert(b[k - a.len()] == ids[k]);
                }
            }
        }
        assert forall|x: int, y: int| 0 <= x < ids.len() && 0 <= y < ids.len() && x != y implies ids[x] != ids[y] by {
            if x < a.len() && y >= a.len() {
                assert(ids[x] == a[x]);
                assert(ids[y] == b[y - a.len()]);
                assert(a.contains(a[x]));
                assert(p1[a[x].0 as int]);
                assert(!p1[b[y - a.len()].0 as int]);
            } else if y < a.len() && x >= a.len() {
                assert(ids[y] == a[y]);
                assert(ids[x] == b[x - a.len()]);
                assert(a.contains(a[y]));
                assert(p1[a[y].0 as int]);
                assert(!p1[b[x - a.len()].0 as int]);
            } else if x < a.len() {
                assert(ids[x] == a[x] && ids[y] == a[y]);
            } else {
                assert(ids[x] == b[x - a.len()] && ids[y] == b[y - a.len()]);
            }
        }
    }
}

proof fn lemma_count_distinct(ids: Seq<SourceId>, j: usize)
    requires
        ids.no_duplicates(),
    ensures
        count_of(ids, j) == (if ids.contains(SourceId(j)) { 1nat } else { 0nat }),
    decreases ids.len(),
{
    if ids.len() > 0 {
        let front = ids.drop_last();
        assert(front.no_duplicates());
        lemma_count_distinct(front, j);
        if ids.last().0 == j {
            assert(ids.last() == SourceId(j));
            if front.contains(SourceId(j)) {
                let k = choose|k: int| 0 <= k < front.len() && front[k] == SourceId(j);
                assert(ids[k] == ids[ids.len() - 1]);
            }
        } else {
            if ids.contains(SourceId(j)) {
                let k = choose|k: int| 0 <= k < ids.len() && ids[k] == SourceId(j);
                assert(k < ids.len() - 1);
                assert(front[k] == SourceId(j));
            }
            if front.contains(SourceId(j)) {
                let k = choose|k: int| 0 <= k < front.len() && front[k] == SourceId(j);
                assert(ids[k] == SourceId(j));
            }
        }
    }
}

/// A declared layout that resolves places every declared pane exactly
/// once, and nothing else.
pub proof fn law_resolved_layout_places_each_pane_once(
    decls: Seq<LayoutDecl>,
    names: Seq<String>,
    layout: LayoutNode,
)
    requires
        names.len() <= usize::MAX,
        decls_outcome(decls, 0, names, Seq::new(names.len(), |i: int| false)) is Ok,
        first_unplaced(decls_outcome(decls, 0, names, Seq::new(names.len(), |i: int| false))->Ok_0, 0) >= names.len(),
        layout matches LayoutNode::Column(ch) && ch@.len() == decls.len() && decls_shaped(
            decls,
            ch@,
            0,
            names,
            Seq::new(names.len(), |i: int| false),
        ),
    ensures
        forall|k: int| 0 <= k < layout_ids(layout).len() ==> (#[trigger] layout_ids(layout)[k]).0 < names.len(),
        forall|j: usize| j < names.len() ==> #[trigger] count_of(layout_ids(layout), j) == 1,
{
    let none = Seq::new(names.len(), |i: int| false);
    let ch = layout->Column_0;
    lemma_cells_places(decls, ch@, 0, names, none);
    assert(ch@.subrange(0, ch@.len() as int) =~= ch@);
    let p = decls_outcome(decls, 0, names, none)->Ok_0;
    let ids = layout_ids(layout);
    assert forall|j: usize| j < names.len() implies #[trigger] count_of(ids, j) == 1 by {
        lemma_first_unplaced_all(p, 0, j as int);
        assert(p[j as int]);
        assert(!none[j as int]);
        lemma_count_distinct(ids, j);
    }
}

proof fn lemma_first_unplaced_all(p: Seq<bool>, i: int, j: int)
    requires
        0 <= i <= j < p.len(),
        first_unplaced(p, i) >= p.len(),
    ensures
        p[j],
    decreases j - i,
{
    if i < j {
        lemma_first_unplaced_all(p, i + 1, j);
    }
}

pub open spec fn never_placed_text(name: Seq<char>) -> Seq<char> {
    "pane "@ + debug_str(name) + " is declared but never placed: add it to the layout"@
}

/// The declared tree becomes the engine's tree: names resolve to ids,
/// and every declared pane must be placed exactly once at any depth.
/// Absent, every pane stacks in declaration order.
pub fn resolve_layout(items: Option<&Vec<LayoutDecl>>, names: &[String]) -> (r: Result<LayoutNode, String>)
    ensures
        items is None ==> r is Ok && layout_ids(r->Ok_0) == Seq::new(names@.len(), |i: int| SourceId(i as usize)),
        items is None ==> r is Ok && (r->Ok_0 matches LayoutNode::Column(ch) && ch@.len() == names@.len() && forall|i: int|
            0 <= i < ch@.len() ==> #[trigger] ch@[i] == LayoutNode::Pane(SourceId(i as usize))),
        items matches Some(v) && v@.len() == 0 ==> r is Err && r->Err_0@ == "layout is empty: name at least one pane, or omit the layout"@,
        items matches Some(decls) ==> match decls_outcome(decls@, 0, names@, Seq::new(names@.len(), |i: int| false)) {
            Err(m) => r is Err && r->Err_0@ == m,
            Ok(p) => if decls@.len() == 0 {
                r is Err
            } else if first_unplaced(p, 0) < names@.len() {
                r is Err && r->Err_0@ == never_placed_text(names@[first_unplaced(p, 0)]@)
            } else {
                r is Ok && (r->Ok_0 matches LayoutNode::Column(ch) && ch@.len() == decls@.len() && decls_shaped(
                    decls@,
                    ch@,
                    0,
                    names@,
                    Seq::new(names@.len(), |i: int| false),
                ))
            },
        },
        r is Ok ==> r->Ok_0 is Column && forall|k: int| 0 <= k < layout_ids(r->Ok_0).len() ==> (#[trigger] layout_ids(
            r->Ok_0)[k]).0 < names@.len(),
{
    match items {
        None => {
            let mut v: Vec<LayoutNode> = Vec::new();
            let mut i: usize = 0;
            while i < names.len()
                invariant
                    i <= names@.len(),
                    children_ids(v@) == Seq::new(i as nat, |j: int| SourceId(j as usize)),
                    v@.len() == i,
                    forall|j: int| 0 <= j < i ==> #[trigger] v@[j] == LayoutNode::Pane(SourceId(j as usize)),
                decreases names@.len() - i,
            {
                proof { lemma_children_ids_push(v@, LayoutNode::Pane(SourceId(i))); }
                v.push(LayoutNode::Pane(SourceId(i)));
                i = i + 1;
                assert(children_ids(v@) =~= Seq::new(i as nat, |j: int| SourceId(j as usize)));
            }
            let ghost ids = children_ids(v@);
            let node = LayoutNode::Column(v);
            assert(layout_ids(node) == ids);
            Ok(node)
        },
        Some(decls) => {
            let mut placed: Vec<bool> = Vec::new();
            let mut i: usize = 0;
            while i < names.len()
                invariant
                    i <= names@.len(),
                    placed@.len() == i,
                    forall|j: int| 0 <= j < i ==> !(#[trigger] placed@[j]),
                decreases names@.len() - i,
            {
                placed.push(false);
                i = i + 1;
            }
            assert(placed@ =~= Seq::new(names@.len(), |i: int| false));
            let nodes = match resolve_cells(decls, names, &mut placed) {
                Ok(n) => n,
                Err(e) => return Err(e),
            };
            if nodes.len() == 0 {
                return Err(String::from_str("layout is empty: name at least one pane, or omit the layout"));
            }
            let mut k: usize = 0;
            while k < placed.len()
                invariant
                    items == Some(decls),
                    decls@.len() > 0,
                    k <= placed@.len(),
                    placed@.len() == names@.len(),
                    forall|j: int| 0 <= j < k ==> placed@[j],
                    first_unplaced(placed@, 0) == first_unplaced(placed@, k as int),
                    decls_outcome(decls@, 0, names@, Seq::new(names@.len(), |i: int| false)) == Ok::<Seq<bool>, Seq<char>>(placed@),
                    nodes@.len() == decls@.len(),
                    decls_shaped(decls@, nodes@, 0, names@, Seq::new(names@.len(), |i: int| false)),
                decreases placed@.len() - k,
            {
                if !placed[k] {
                    assert(first_unplaced(placed@, k as int) == k as int);
                    let mut m = String::from_str("pane ");
                    let q = debug_quote(names[k].as_str());
                    m.append(q.as_str());
                    m.append(" is declared but never placed: add it to the layout");
                    return Err(m);
                }
                k = k + 1;
            }
            let ghost ids = children_ids(nodes@);
            let node = LayoutNode::Column(nodes);
            assert(layout_ids(node) == ids);
            Ok(node)
        },
    }
}

} // verus!

verus! {

/// The first pane from `i` on with no id, or the length.
pub open spec fn first_unnamed(panes: Seq<PaneDecl>, i: int) -> int
    decreases panes.len() - i,
{
    if i < 0 || i >= panes.len() {
        panes.len() as int
    } else if panes[i].id is None {
        i
    } else {
        first_unnamed(panes, i + 1)
    }
}

pub open spec fn unnamed_text(index: int) -> Seq<char> {
    "pane #"@ + decimal((index + 1) as nat) + ": every pane needs an id"@
}

/// The line a duplicate id is reported with.
pub open spec fn duplicate_line(id: Seq<char>) -> Seq<char> {
    "duplicate id "@ + debug_str(id) + " — refs bind to the first declaration"@
}

/// The load-time facts worth telling but not worth failing over: one
/// line per id declared more than once, in the order of its second
/// declaration.
pub open spec fn duplicate_lines(names: Seq<Seq<char>>) -> Seq<Seq<char>>
    decreases names.len(),
{
    if names.len() == 0 {
        seq![]
    } else {
        let prev = duplicate_lines(names.drop_last());
        let id = names.last();
        if names.drop_last().contains(id) && !prev.contains(duplicate_line(id)) {
            prev.push(duplicate_line(id))
        } else {
            prev
        }
    }
}

/// Whether `v` holds a string equal to `s`.
fn holds_string(v: &Vec<String>, s: &str) -> (b: bool)
    ensures
        b == name_views(v@).contains(s@),
{
    names_contain(v.as_slice(), s)
}

/// A quantity as a fact of a name list.
proof fn lemma_name_views_take(names: Seq<String>, i: int)
    requires
        0 <= i < names.len(),
    ensures
        name_views(names.take(i + 1)).drop_last() == name_views(names.take(i)),
        name_views(names.take(i + 1)).last() == names[i]@,
        name_views(names.take(i)) == name_views(names).take(i),
{
    assert(name_views(names.take(i + 1)).drop_last() =~= name_views(names.take(i)));
    assert(name_views(names.take(i)) =~= name_views(names).take(i));
}

impl DashboardFile {
    /// Whether any pane asked for a line cursor and can be focused to
    /// receive one.
    pub open spec fn takes_a_cursor_spec(&self) -> bool {
        exists|i: int| 0 <= i < self.panes@.len() && flag_of(#[trigger] self.panes@[i].focusable,
            self.defaults.focusable, true) && selectable_spec(self.panes@[i], self.defaults)
    }

    /// Whether any pane on this board asked for a line cursor — both
    /// focusable and selectable, each inherited.
    pub fn takes_a_cursor(&self) -> (b: bool)
        ensures
            b == self.takes_a_cursor_spec(),
    {
        let mut i: usize = 0;
        while i < self.panes.len()
            invariant
                i <= self.panes@.len(),
                forall|k: int| 0 <= k < i ==> !(flag_of(#[trigger] self.panes@[k].focusable, self.defaults.focusable, true)
                    && selectable_spec(self.panes@[k], self.defaults)),
            decreases self.panes@.len() - i,
        {
            let decl = &self.panes[i];
            if pick_flag(decl.focusable, self.defaults.focusable, true) && selectable(decl, &self.defaults) {
                return true;
            }
            i = i + 1;
        }
        false
    }

    /// Every pane's name, in declaration order; a pane with no id is refused.
    pub fn pane_names(&self) -> (r: Result<Vec<String>, String>)
        ensures
            r is Err <==> first_unnamed(self.panes@, 0) < self.panes@.len(),
            r is Err ==> r->Err_0@ == unnamed_text(first_unnamed(self.panes@, 0)),
            r is Ok ==> r->Ok_0@.len() == self.panes@.len() && forall|i: int| 0 <= i < self.panes@.len()
                ==> self.panes@[i].id == Some(#[trigger] r->Ok_0@[i]),
    {
        let mut names: Vec<String> = Vec::new();
        let mut i: usize = 0;
        while i < self.panes.len()
            invariant
                i <= self.panes@.len(),
                first_unnamed(self.panes@, 0) == first_unnamed(self.panes@, i as int),
                names@.len() == i,
                forall|k: int| 0 <= k < i ==> self.panes@[k].id == Some(#[trigger] names@[k]),
            decreases self.panes@.len() - i,
        {
            match &self.panes[i].id {
                Some(id) => names.push(id.clone()),
                None => {
                    let mut m = String::from_str("pane #");
                    let n = decimal_string((i + 1) as u64);
                    m.append(n.as_str());
                    m.append(": every pane needs an id");
                    return Err(m);
                },
            }
            i = i + 1;
        }
        Ok(names)
    }

    /// The load-time facts worth telling but not worth failing over.
    pub fn collect_diagnostics(names: &[String]) -> (out: Vec<String>)
        ensures
            name_views(out@) == duplicate_lines(name_views(names@)),
    {
        let mut out: Vec<String> = Vec::new();
        let mut i: usize = 0;
        while i < names.len()
            invariant
                i <= names@.len(),
                name_views(out@) == duplicate_lines(name_views(names@.take(i as int))),
            decreases names@.len() - i,
        {
            proof { lemma_name_views_take(names@, i as int); }
            let earlier = names_contain(&names[0..i], names[i].as_str());
            let ghost before = names@.take(i as int);
            assert(names@.subrange(0, i as int) =~= before);
            if earlier {
                let mut line = String::from_str("duplicate id ");
                let q = debug_quote(names[i].as_str());
                line.append(q.as_str());
                line.append(" — refs bind to the first declaration");
                if !holds_string(&out, line.as_str()) {
                    let ghost prev = out@;
                    out.push(line);
                    assert(name_views(out@) =~= name_views(prev).push(duplicate_line(names@[i as int]@)));
                }
            }
            i = i + 1;
        }
        assert(names@.take(names@.len() as int) =~= names@);
        out
    }
}

} // verus!

verus! {

/// The first position from `i` on whose name is `w`, or the length.
pub open spec fn first_index(names: Seq<Seq<char>>, w: Seq<char>, i: int) -> int
    decreases names.len() - i,
{
    if i < 0 || i >= names.len() {
        names.len() as int
    } else if names[i] == w {
        i
    } else {
        first_index(names, w, i + 1)
    }
}

fn find_name(names: &[String], w: &str) -> (i: usize)
    ensures
        i as int == first_index(name_views(names@), w@, 0),
        i <= names@.len(),
{
    let mut i: usize = 0;
    while i < names.len()
        invariant
            i <= names@.len(),
            first_index(name_views(names@), w@, 0) == first_index(name_views(names@), w@, i as int),
        decreases names@.len() - i,
    {
        let v = chars_of(names[i].as_str());
        if crate::text::chars_eq(v.as_slice(), w) {
            return i;
        }
        i = i + 1;
    }
    i
}

pub open spec fn no_such_ref_text(wanted: Seq<char>, names: Seq<Seq<char>>) -> Seq<char> {
    "title ref \"#"@ + wanted + "\" names no pane — declared ids are "@ + joined(names, ", "@)
}

/// What the dashboard's title resolves to, when it resolves.
pub open spec fn title_spec(title: Option<TitleDecl>, vars: VariableBlock, names: Seq<Seq<char>>, b: Bindings) -> Result<
    TitleView,
    Seq<char>,
> {
    match title {
        None => Ok(TitleView::NoTitle),
        Some(t) => match (if t.text is Some { first_deferred(t.text->0.refs@, vars, 0) } else { None }) {
            Some(name) => Err(deferred_site_text("the dashboard"@, "title"@, false, name)),
            None => match t.reference {
                None => match at_load_spec(t.text->0, b) {
                    Ok(s) => Ok(TitleView::Static(s)),
                    Err(e) => Err(e),
                },
                Some(wanted) => if first_index(names, wanted@, 0) >= names.len() {
                    Err(no_such_ref_text(wanted@, names))
                } else {
                    match t.text {
                        None => Ok(TitleView::Pane { source: SourceId(first_index(names, wanted@, 0) as usize), fallback: None }),
                        Some(x) => match at_load_spec(x, b) {
                            Ok(s) => Ok(TitleView::Pane {
                                source: SourceId(first_index(names, wanted@, 0) as usize),
                                fallback: Some(s),
                            }),
                            Err(e) => Err(e),
                        },
                    }
                },
            },
        },
    }
}

/// A title source as a value: texts by their chars.
pub enum TitleView {
    NoTitle,
    Static(Seq<char>),
    Pane { source: SourceId, fallback: Option<Seq<char>> },
}

pub open spec fn title_view(t: TitleSource) -> TitleView {
    match t {
        TitleSource::NoTitle => TitleView::NoTitle,
        TitleSource::Static(s) => TitleView::Static(s@),
        TitleSource::Pane { source, fallback } => TitleView::Pane {
            source,
            fallback: match fallback {
                Some(f) => Some(f@),
                None => None,
            },
        },
    }
}

impl DashboardFile {
    /// The declared title against the declared panes: a `ref` binds the
    /// first pane with the id; an id nothing declares is refused with
    /// the list of what exists.
    pub fn resolve_title(&self, names: &[String], bindings: &Bindings) -> (r: Result<TitleSource, String>)
        requires
            self.title matches Some(t) ==> t.text is Some || t.reference is Some,
        ensures
            match title_spec(self.title, self.variables, name_views(names@), *bindings) {
                Ok(t) => r is Ok && title_view(r->Ok_0) == t,
                Err(e) => r is Err && r->Err_0@ == e,
            },
    {
        match &self.title {
            None => Ok(TitleSource::NoTitle),
            Some(t) => {
                match &t.text {
                    Some(text) => {
                        match refuse_deferred_at_load_site(text, "title", false, &self.variables, "the dashboard") {
                            Ok(()) => {},
                            Err(e) => return Err(e),
                        }
                    },
                    None => {},
                }
                match &t.reference {
                    None => {
                        let text = t.text.as_ref().unwrap();
                        match at_load(text, bindings) {
                            Ok(s) => Ok(TitleSource::Static(s)),
                            Err(e) => Err(e),
                        }
                    },
                    Some(wanted) => {
                        let i = find_name(names, wanted.as_str());
                        if i >= names.len() {
                            let mut m = String::from_str("title ref \"#");
                            m.append(wanted.as_str());
                            m.append("\" names no pane — declared ids are ");
                            let all = join_strings(names, ", ");
                            m.append(all.as_str());
                            assert(names@.map_values(|s: String| s@) =~= name_views(names@));
                            return Err(m);
                        }
                        match &t.text {
                            None => Ok(TitleSource::Pane { source: SourceId(i), fallback: None }),
                            Some(text) => match at_load(text, bindings) {
                                Ok(s) => Ok(TitleSource::Pane { source: SourceId(i), fallback: Some(s) }),
                                Err(e) => Err(e),
                            },
                        }
                    },
                }
            },
        }
    }
}

} // verus!

verus! {

pub open spec fn no_panes_text() -> Seq<char> {
    "no panes declared: a dashboard needs at least one pane"@
}

pub open spec fn default_id_text() -> Seq<char> {
    "an id is not a default: give each pane its own id"@
}

pub open spec fn defaults_both_text() -> Seq<char> {
    "defaults: declares both `command` and `script` — a pane runs one program; keep the `script` body or the `command` argv, not both"@
}

/// The declared ids, when every pane has one.
pub open spec fn declared_ids(panes: Seq<PaneDecl>) -> Seq<Seq<char>> {
    panes.map_values(|p: PaneDecl| p.id->0@)
}

/// The declared ids, as the strings the panes hold.
pub open spec fn id_strings(panes: Seq<PaneDecl>) -> Seq<String> {
    Seq::new(panes.len(), |i: int| panes[i].id->0)
}

/// The first pane from `i` on whose program or box is refused: why.
pub open spec fn pane_refusal_from(panes: Seq<PaneDecl>, defaults: PaneDecl, block: VariableBlock, b: Bindings, i: int) -> Option<
    Seq<char>,
>
    decreases panes.len() - i,
{
    if i < 0 || i >= panes.len() {
        None
    } else {
        let id = panes[i].id->0@;
        match source_result(panes[i], defaults, block, b, id) {
            Err(m) => Some(m),
            Ok(_) => match box_result(panes[i], defaults, block, b, id) {
                Err(m) => Some(m),
                Ok(_) => pane_refusal_from(panes, defaults, block, b, i + 1),
            },
        }
    }
}

/// Rows of a box that its border, vertical padding and status row take,
/// saturating at `u16::MAX`.
pub open spec fn frame_rows_of(border: BorderPreset, padding: Sides, chrome: bool) -> int {
    crate::registry::min_int(2 * (if border.draws_spec() { 1int } else { 0int }) + crate::registry::min_int(
        padding.top + padding.bottom,
        u16::MAX as int,
    ) + (if chrome { 1int } else { 0int }), u16::MAX as int)
}

/// The frame rows of pane `i`'s box.
pub open spec fn pane_frame(panes: Seq<PaneDecl>, defaults: PaneDecl, block: VariableBlock, b: Bindings, i: int) -> int {
    let bx = box_result(panes[i], defaults, block, b, panes[i].id->0@)->Ok_0;
    frame_rows_of(bx.3, bx.4, flag_of(panes[i].chrome, defaults.chrome, true))
}

/// The first pane from `i` on whose height its frame already fills, or the length.
pub open spec fn first_short(panes: Seq<PaneDecl>, defaults: PaneDecl, block: VariableBlock, b: Bindings, i: int) -> int
    decreases panes.len() - i,
{
    if i < 0 || i >= panes.len() {
        panes.len() as int
    } else if box_result(panes[i], defaults, block, b, panes[i].id->0@)->Ok_0.0 <= pane_frame(panes, defaults, block, b, i) {
        i
    } else {
        first_short(panes, defaults, block, b, i + 1)
    }
}

pub open spec fn too_short_text(id: Seq<char>, height: int, frame: int) -> Seq<char> {
    "pane "@ + debug_str(id) + " is "@ + decimal(height as nat)
        + " rows tall, but its border, padding, and status row already take "@ + decimal(frame as nat)
        + ": give it at least "@ + decimal(crate::registry::min_int(frame + 1, u16::MAX as int) as nat)
}

/// Why a declared layout is refused, if it is.
pub open spec fn layout_refusal(layout: Option<Vec<LayoutDecl>>, names: Seq<String>) -> Option<Seq<char>> {
    match layout {
        None => None,
        Some(decls) => match decls_outcome(decls@, 0, names, Seq::new(names.len(), |i: int| false)) {
            Err(m) => Some(m),
            Ok(p) => if decls@.len() == 0 {
                Some("layout is empty: name at least one pane, or omit the layout"@)
            } else if first_unplaced(p, 0) < names.len() {
                Some(never_placed_text(names[first_unplaced(p, 0)]@))
            } else {
                None
            },
        },
    }
}

/// Why a file cannot become a registry, checked in this order: no
/// panes, an id in the defaults, both programs in the defaults, a pane
/// without an id, a pane's program or box, the layout, a pane too short
/// for its frame, the title.
pub open spec fn registry_refusal(file: DashboardFile, b: Bindings) -> Option<Seq<char>> {
    let panes = file.panes@;
    let defaults = file.defaults;
    if panes.len() == 0 {
        Some(no_panes_text())
    } else if defaults.id is Some {
        Some(default_id_text())
    } else if defaults.command is Some && defaults.script is Some {
        Some(defaults_both_text())
    } else if first_unnamed(panes, 0) < panes.len() {
        Some(unnamed_text(first_unnamed(panes, 0)))
    } else if pane_refusal_from(panes, defaults, file.variables, b, 0) is Some {
        pane_refusal_from(panes, defaults, file.variables, b, 0)
    } else if layout_refusal(file.layout, id_strings(panes)) is Some {
        layout_refusal(file.layout, id_strings(panes))
    } else if first_short(panes, defaults, file.variables, b, 0) < panes.len() {
        let i = first_short(panes, defaults, file.variables, b, 0);
        Some(too_short_text(
            panes[i].id->0@,
            box_result(panes[i], defaults, file.variables, b, panes[i].id->0@)->Ok_0.0 as int,
            pane_frame(panes, defaults, file.variables, b, i),
        ))
    } else {
        match title_spec(file.title, file.variables, declared_ids(panes), b) {
            Err(e) => Some(e),
            Ok(_) => None,
        }
    }
}

proof fn lemma_first_short_bounds(panes: Seq<PaneDecl>, defaults: PaneDecl, block: VariableBlock, b: Bindings, i: int)
    requires
        0 <= i <= panes.len(),
    ensures
        i <= first_short(panes, defaults, block, b, i) <= panes.len(),
    decreases panes.len() - i,
{
    if i < panes.len() {
        lemma_first_short_bounds(panes, defaults, block, b, i + 1);
    }
}

proof fn lemma_all_in_range(ids: Seq<SourceId>, n: usize, k: int)
    requires
        0 <= k <= ids.len(),
        forall|j: int| 0 <= j < ids.len() ==> (#[trigger] ids[j]).0 < n,
    ensures
        first_out_of_range(ids, n, k) == ids.len(),
    decreases ids.len() - k,
{
    if k < ids.len() {
        lemma_all_in_range(ids, n, k + 1);
    }
}

proof fn lemma_all_once(ids: Seq<SourceId>, n: usize, i: int)
    requires
        0 <= i <= n,
        forall|j: usize| j < n ==> #[trigger] count_of(ids, j) == 1,
    ensures
        first_misplaced(ids, n, i) == n,
    decreases n - i,
{
    if i < n {
        assert(count_of(ids, i as usize) == 1);
        lemma_all_once(ids, n, i + 1);
    }
}

proof fn lemma_short_same(boxes: Seq<PaneBox>, panes: Seq<PaneDecl>, defaults: PaneDecl, block: VariableBlock, b: Bindings, i: int)
    requires
        0 <= i <= panes.len(),
        boxes.len() == panes.len(),
        forall|k: int| 0 <= k < panes.len() ==> (#[trigger] boxes[k]).height == box_result(panes[k], defaults, block, b, panes[k].id->0@)->Ok_0.0
            && boxes[k].frame_rows_spec() == pane_frame(panes, defaults, block, b, k),
    ensures
        first_too_short(boxes, i) == first_short(panes, defaults, block, b, i),
    decreases panes.len() - i,
{
    if i < panes.len() {
        assert(boxes[i].height == box_result(panes[i], defaults, block, b, panes[i].id->0@)->Ok_0.0);
        lemma_short_same(boxes, panes, defaults, block, b, i + 1);
    }
}

/// With every pane resolved and a layout placing each once, the
/// registry's checks come down to the panes' heights.
proof fn lemma_panes_check(
    sources: Seq<SourceSpec>,
    boxes: Seq<PaneBox>,
    layout: LayoutNode,
    panes: Seq<PaneDecl>,
    defaults: PaneDecl,
    block: VariableBlock,
    b: Bindings,
)
    requires
        sources.len() == panes.len(),
        boxes.len() == panes.len(),
        panes.len() <= usize::MAX,
        forall|k: int| 0 <= k < panes.len() ==> (#[trigger] sources[k]).id@ == panes[k].id->0@,
        forall|k: int| 0 <= k < panes.len() ==> (#[trigger] boxes[k]).height == box_result(panes[k], defaults, block, b, panes[k].id->0@)->Ok_0.0
            && boxes[k].frame_rows_spec() == pane_frame(panes, defaults, block, b, k),
        forall|k: int| 0 <= k < layout_ids(layout).len() ==> (#[trigger] layout_ids(layout)[k]).0 < panes.len(),
        forall|j: usize| j < panes.len() ==> #[trigger] count_of(layout_ids(layout), j) == 1,
    ensures
        panes_refusal(sources, boxes, layout) == (if first_short(panes, defaults, block, b, 0) < panes.len() {
            let i = first_short(panes, defaults, block, b, 0);
            Some(too_short_text(
                panes[i].id->0@,
                box_result(panes[i], defaults, block, b, panes[i].id->0@)->Ok_0.0 as int,
                pane_frame(panes, defaults, block, b, i),
            ))
        } else {
            None
        }),
{
    let ids = layout_ids(layout);
    let n = panes.len();
    lemma_all_in_range(ids, n as usize, 0);
    lemma_all_once(ids, n as usize, 0);
    lemma_short_same(boxes, panes, defaults, block, b, 0);
    lemma_first_short_bounds(panes, defaults, block, b, 0);
    if first_short(panes, defaults, block, b, 0) < panes.len() {
        let i = first_short(panes, defaults, block, b, 0);
        assert(sources[i].id@ == panes[i].id->0@);
        assert(boxes[i].height == box_result(panes[i], defaults, block, b, panes[i].id->0@)->Ok_0.0);
    }
}

/// The registry a file declares: each pane's source and box as it
/// declares them, the layout, the gaps, the title and the duplicate-id
/// diagnostics.
pub open spec fn registry_built(file: DashboardFile, b: Bindings, reg: Registry) -> bool {
    let panes = file.panes@;
    &&& reg.sources_spec().len() == panes.len()
    &&& reg.panes_spec().len() == panes.len()
    &&& forall|i: int| 0 <= i < panes.len() ==> panes[i].id is Some && (panes[i].id->0)@ == (#[trigger] reg.sources_spec()[i]).id@
    &&& forall|i: int| 0 <= i < panes.len() ==> source_built(panes[i], file.defaults, file.variables, b, panes[i].id->0@,
        #[trigger] reg.sources_spec()[i])
    &&& forall|i: int| 0 <= i < panes.len() ==> box_built(panes[i], file.defaults, file.variables, b, panes[i].id->0@,
        #[trigger] reg.panes_spec()[i])
    &&& forall|i: int| 0 <= i < panes.len() ==> first_of(panes[i].height, file.defaults.height) == Some(
        #[trigger] reg.panes_spec()[i].height)
    &&& name_views(reg.diagnostics_spec()) == duplicate_lines(declared_ids(panes))
    &&& reg.composition_spec() matches Composition::Panes { layout, gap, row_gap, title } && gap == (match file.gap {
        Some(g) => g,
        None => 0,
    }) && row_gap == (match file.row_gap {
        Some(g) => g,
        None => 0,
    }) && (file.layout is None ==> layout_ids(layout) == Seq::new(panes.len(), |i: int| SourceId(i as usize))) && (
    file.layout is None ==> (layout matches LayoutNode::Column(ch) && ch@.len() == panes.len() && forall|i: int|
        0 <= i < ch@.len() ==> #[trigger] ch@[i] == LayoutNode::Pane(SourceId(i as usize)))) && (file.layout matches Some(
        decls) ==> (layout matches LayoutNode::Column(ch) && ch@.len() == decls@.len() && decls_shaped(
        decls@,
        ch@,
        0,
        id_strings(panes),
        Seq::new(panes.len(), |i: int| false),
    ))) && title_spec(file.title, file.variables, declared_ids(panes), b) == Ok::<TitleView, Seq<char>>(title_view(title))
    &&& forall|i: int| 0 <= i < panes.len() ==> (#[trigger] reg.sources_spec()[i]).live == flag_of(
        panes[i].live,
        file.defaults.live,
        false,
    )
}

impl DashboardFile {
    /// The one validation path: resolve defaults, parse every token,
    /// check the layout, build the registry. Every error names the pane
    /// and the fix.
    #[verifier::rlimit(40)]
    pub fn into_registry(self, bindings: &Bindings) -> (r: Result<Registry, String>)
        requires
            self.title matches Some(t) ==> t.text is Some || t.reference is Some,
        ensures
            match registry_refusal(self, *bindings) {
                Some(m) => r is Err && r->Err_0@ == m,
                None => r is Ok,
            },
            self.panes@.len() == 0 ==> r is Err && r->Err_0@ == no_panes_text(),
            self.panes@.len() > 0 && self.defaults.id is Some ==> r is Err && r->Err_0@ == default_id_text(),
            self.panes@.len() > 0 && self.defaults.id is None && self.defaults.command is Some
                && self.defaults.script is Some ==> r is Err && r->Err_0@ == defaults_both_text(),
            self.panes@.len() > 0 && self.defaults.id is None && !(self.defaults.command is Some
                && self.defaults.script is Some) && first_unnamed(self.panes@, 0) < self.panes@.len() ==> r is Err
                && r->Err_0@ == unnamed_text(first_unnamed(self.panes@, 0)),
            r is Ok ==> registry_built(self, *bindings, r->Ok_0),
    {
        if self.panes.len() == 0 {
            return Err(String::from_str("no panes declared: a dashboard needs at least one pane"));
        }
        if self.defaults.id.is_some() {
            return Err(String::from_str("an id is not a default: give each pane its own id"));
        }
        assert(self.defaults.id is None);
        if self.defaults.command.is_some() && self.defaults.script.is_some() {
            return Err(String::from_str("defaults: declares both `command` and `script` — a pane runs one program; keep the `script` body or the `command` argv, not both"));
        }
        let names = match self.pane_names() {
            Ok(n) => n,
            Err(e) => return Err(e),
        };
        let mut sources: Vec<SourceSpec> = Vec::new();
        let mut boxes: Vec<PaneBox> = Vec::new();
        let mut i: usize = 0;
        while i < self.panes.len()
            invariant
                i <= self.panes@.len(),
                self.panes@.len() > 0,
                self.defaults.id is None,
                !(self.defaults.command is Some && self.defaults.script is Some),
                !(first_unnamed(self.panes@, 0) < self.panes@.len()),
                names@.len() == self.panes@.len(),
                forall|k: int| 0 <= k < self.panes@.len() ==> self.panes@[k].id == Some(#[trigger] names@[k]),
                sources@.len() == i,
                boxes@.len() == i,
                forall|k: int| 0 <= k < i ==> (#[trigger] sources@[k]).id@ == names@[k]@,
                forall|k: int| 0 <= k < i ==> (#[trigger] sources@[k]).live == flag_of(self.panes@[k].live,
                    self.defaults.live, false),
                forall|k: int| 0 <= k < i ==> first_of(self.panes@[k].height, self.defaults.height) == Some(
                    #[trigger] boxes@[k].height),
                pane_refusal_from(self.panes@, self.defaults, self.variables, *bindings, 0) == pane_refusal_from(
                    self.panes@, self.defaults, self.variables, *bindings, i as int),
                forall|k: int| 0 <= k < i ==> (#[trigger] boxes@[k]).height == box_result(self.panes@[k], self.defaults,
                    self.variables, *bindings, self.panes@[k].id->0@)->Ok_0.0 && boxes@[k].frame_rows_spec() == pane_frame(
                    self.panes@, self.defaults, self.variables, *bindings, k),
                forall|k: int| 0 <= k < i ==> (#[trigger] sources@[k]).id@ == self.panes@[k].id->0@,
                forall|k: int| 0 <= k < i ==> source_built(self.panes@[k], self.defaults, self.variables, *bindings,
                    self.panes@[k].id->0@, #[trigger] sources@[k]),
                forall|k: int| 0 <= k < i ==> box_built(self.panes@[k], self.defaults, self.variables, *bindings,
                    self.panes@[k].id->0@, #[trigger] boxes@[k]),
            decreases self.panes@.len() - i,
        {
            let source = match resolve_source(&self.panes[i], &self.defaults, &self.variables, bindings, names[i].as_str()) {
                Ok(s) => s,
                Err(e) => return Err(e),
            };
            let pane = match resolve_box(&self.panes[i], &self.defaults, &self.variables, bindings, names[i].as_str()) {
                Ok(b) => b,
                Err(e) => return Err(e),
            };
            proof {
                assert(names@[i as int]@ == self.panes@[i as int].id->0@);
            }
            sources.push(source);
            boxes.push(pane);
            i = i + 1;
        }
        proof {
            assert(names@ =~= id_strings(self.panes@));
        }
        let layout = match resolve_layout(self.layout.as_ref(), names.as_slice()) {
            Ok(l) => l,
            Err(e) => return Err(e),
        };
        let gap = match self.gap {
            Some(g) => g,
            None => 0,
        };
        let row_gap = match self.row_gap {
            Some(g) => g,
            None => 0,
        };
        proof {
            let ids = layout_ids(layout);
            let n = self.panes@.len();
            lemma_all_in_range(ids, n as usize, 0);
            if self.layout is Some {
                law_resolved_layout_places_each_pane_once(self.layout->0@, names@, layout);
            } else {
                assert forall|j: usize| j < n implies #[trigger] count_of(ids, j) == 1 by {
                    assert(ids[j as int] == SourceId(j));
                    lemma_count_distinct(ids, j);
                }
            }
            lemma_panes_check(sources@, boxes@, layout, self.panes@, self.defaults, self.variables, *bindings);
        }
        let registry = match Registry::panes(sources, boxes, layout, gap, row_gap) {
            Ok(reg) => reg,
            Err(e) => return Err(e),
        };
        proof {
            assert(name_views(names@) =~= declared_ids(self.panes@));
        }
        let title = match self.resolve_title(names.as_slice(), bindings) {
            Ok(t) => t,
            Err(e) => return Err(e),
        };
        let diagnostics = Self::collect_diagnostics(names.as_slice());
        proof {
            assert(name_views(names@) =~= declared_ids(self.panes@));
        }
        Ok(registry.with_title(title).with_diagnostics(diagnostics))
    }
}

} // verus!

verus! {

pub open spec fn key_at_text(spelling: Seq<char>) -> Seq<char> {
    "key "@ + debug_str(spelling)
}

pub open spec fn output_spec(token: Seq<char>) -> Option<BindingOutput> {
    if token == "hide"@ {
        Some(BindingOutput::Hide)
    } else if token == "status"@ {
        Some(BindingOutput::Status)
    } else if token == "pager"@ {
        Some(BindingOutput::Pager)
    } else {
        None
    }
}

pub open spec fn bad_output_text(at: Seq<char>) -> Seq<char> {
    at + ": `output` takes \"hide\", \"status\", or \"pager\" — write `output \"status\"`"@
}

pub open spec fn empty_command_text(at: Seq<char>) -> Seq<char> {
    at + ": `command` is empty — a binding with nothing to run is a key that does nothing"@
}

pub open spec fn when_without_shell_text(at: Seq<char>) -> Seq<char> {
    at + ": `when` is a command line and runs through a shell, but this binding declares `shell #false` — drop the `shell #false`, or drop the `when`"@
}

/// A binding's load-time texts — its description and confirmation —
/// and its resolved shell, or the first refusal among them.
pub open spec fn binding_texts(decl: KeyBindingDecl, defaults: PaneDecl, block: VariableBlock, b: Bindings) -> Result<
    (Seq<char>, Option<Seq<char>>, ModeView),
    Seq<char>,
> {
    let at = key_at_text(decl.spelling@);
    let declared = first_of(decl.shell, defaults.shell);
    let shell_site: Option<(ShellDecl, bool)> = match decl.shell {
        Some(x) => Some((x, false)),
        None => match defaults.shell {
            Some(x) => Some((x, true)),
            None => None,
        },
    };
    match token_result(decl.description, false, "description"@, block, b, at) {
        Err(e) => Err(e),
        Ok(description) => {
            let confirm: Result<Option<Seq<char>>, Seq<char>> = match decl.confirm {
                None => Ok(None),
                Some(t) => match token_result(t, false, "confirm"@, block, b, at) {
                    Err(e) => Err(e),
                    Ok(c) => Ok(Some(c)),
                },
            };
            match confirm {
                Err(e) => Err(e),
                Ok(confirm) => {
                    let site: Option<Seq<char>> = match shell_site {
                        Some((ShellDecl::Named(t), inherited)) => match first_deferred(t.refs@, block, 0) {
                            Some(n) => Some(deferred_site_text(at, "shell"@, inherited, n)),
                            None => None,
                        },
                        _ => None,
                    };
                    if site is Some {
                        Err(site->0)
                    } else {
                        match crate::registry::resolve_spec(
                            match declared {
                                Some(d) => d,
                                None => ShellDecl::Direct,
                            },
                            b,
                        ) {
                            Err(d) => Err(at + ": "@ + crate::registry::empty_shell_text(d)),
                            Ok(sh) => Ok((description, confirm, sh)),
                        }
                    }
                },
            }
        },
    }
}

/// A binding's output, mode and precondition shell, once its texts
/// and shell are known — or the first refusal among them.
pub open spec fn binding_rest(
    decl: KeyBindingDecl,
    defaults: PaneDecl,
    block: VariableBlock,
    b: Bindings,
    sh: ModeView,
) -> Result<(BindingOutput, ModeView, Option<ModeView>), Seq<char>> {
    let at = key_at_text(decl.spelling@);
    let declared = first_of(decl.shell, defaults.shell);
    let output: Result<BindingOutput, Seq<char>> = match decl.output {
        None => Ok(BindingOutput::Status),
        Some(t) => match token_result(t, false, "output"@, block, b, at) {
            Err(e) => Err(e),
            Ok(x) => match output_spec(x) {
                Some(o) => Ok(o),
                None => Err(bad_output_text(at)),
            },
        },
    };
    match output {
        Err(e) => Err(e),
        Ok(output) => {
            let mode: Result<ModeView, Seq<char>> = match decl.program {
                BindingProgram::Argv(argv) => if argv@.len() == 0 { Err(empty_command_text(at)) } else { Ok(sh) },
                BindingProgram::Script(body) => ladder_spec(body, decl.shell, declared, sh, at, "binding"@),
            };
            match mode {
                Err(e) => Err(e),
                Ok(mode) => if decl.when is None {
                    Ok((output, mode, None))
                } else {
                    match declared {
                        None => Ok((output, mode, Some(ModeView::Platform))),
                        Some(ShellDecl::Direct) => Err(when_without_shell_text(at)),
                        Some(named) => match crate::registry::resolve_spec(named, b) {
                            Err(d) => Err(at + ": "@ + crate::registry::empty_shell_text(d)),
                            Ok(m) => Ok((output, mode, Some(m))),
                        },
                    }
                },
            }
        },
    }
}

/// Why a binding is refused, if it is.
pub open spec fn binding_refusal(decl: KeyBindingDecl, defaults: PaneDecl, block: VariableBlock, b: Bindings) -> Option<Seq<char>> {
    match binding_texts(decl, defaults, block, b) {
        Err(m) => Some(m),
        Ok((_, _, sh)) => match binding_rest(decl, defaults, block, b, sh) {
            Err(m) => Some(m),
            Ok(_) => None,
        },
    }
}

/// A loaded binding is what its declaration resolves to: its key and
/// spelling, its filled texts, its output, its program under its mode,
/// and its precondition under its shell.
pub open spec fn binding_built(decl: KeyBindingDecl, defaults: PaneDecl, block: VariableBlock, b: Bindings, k: KeyBinding) -> bool {
    match binding_texts(decl, defaults, block, b) {
        Err(_) => false,
        Ok((description, confirm, sh)) => match binding_rest(decl, defaults, block, b, sh) {
            Err(_) => false,
            Ok((output, mode, when_shell)) => {
                &&& k.key == decl.key
                &&& k.spelling@ == decl.spelling@
                &&& k.description@ == description
                &&& match confirm {
                    None => k.confirm is None,
                    Some(x) => k.confirm is Some && k.confirm->0@ == x,
                }
                &&& k.output == output
                &&& k.shell@ == mode
                &&& match when_shell {
                    None => k.when_shell is None,
                    Some(m) => k.when_shell is Some && k.when_shell->0@ == m,
                }
                &&& (decl.when is None <==> k.when is None)
                &&& (decl.when matches Some(w) ==> (k.when matches Some(x) && x.text == w.text && x.refs@ == w.refs@
                    && x.interpolating == w.interpolating))
                &&& match decl.program {
                    BindingProgram::Argv(argv) => k.program matches BindingProgram::Argv(out) && same_templates(out@, argv@),
                    BindingProgram::Script(body) => k.program matches BindingProgram::Script(t) && t.text == body.text
                        && t.refs@ == body.refs@ && t.interpolating == body.interpolating,
                }
            },
        },
    }
}

/// The first refused binding from `i` on.
pub open spec fn bindings_refusal_from(
    decls: Seq<KeyBindingDecl>,
    defaults: PaneDecl,
    block: VariableBlock,
    b: Bindings,
    i: int,
) -> Option<Seq<char>>
    decreases decls.len() - i,
{
    if i < 0 || i >= decls.len() {
        None
    } else {
        match binding_refusal(decls[i], defaults, block, b) {
            Some(m) => Some(m),
            None => bindings_refusal_from(decls, defaults, block, b, i + 1),
        }
    }
}

fn binding_texts_exec(
    decl: &KeyBindingDecl,
    defaults: &PaneDecl,
    block: &VariableBlock,
    bindings: &Bindings,
    at: &str,
) -> (r: Result<(String, Option<String>, ShellMode), String>)
    requires
        at@ == key_at_text(decl.spelling@),
    ensures
        match binding_texts(*decl, *defaults, *block, *bindings) {
            Err(m) => r is Err && r->Err_0@ == m,
            Ok((d, c, sh)) => r is Ok && (r->Ok_0).0@ == d && (r->Ok_0).2@ == sh && match c {
                None => (r->Ok_0).1 is None,
                Some(x) => (r->Ok_0).1 is Some && (r->Ok_0).1->0@ == x,
            },
        },
{
    match refuse_deferred_at_load_site(&decl.description, "description", false, block, at) {
        Ok(()) => {},
        Err(e) => return Err(e),
    }
    let description = match at_load(&decl.description, bindings) {
        Ok(d) => d,
        Err(e) => return Err(e),
    };
    let confirm = match &decl.confirm {
        Some(text) => {
            match refuse_deferred_at_load_site(text, "confirm", false, block, at) {
                Ok(()) => {},
                Err(e) => return Err(e),
            }
            match at_load(text, bindings) {
                Ok(c) => Some(c),
                Err(e) => return Err(e),
            }
        },
        None => None,
    };
    match inherit(decl.shell.as_ref(), defaults.shell.as_ref()) {
        Some((ShellDecl::Named(name), inherited)) => {
            match refuse_deferred_at_load_site(name, "shell", inherited, block, at) {
                Ok(()) => {},
                Err(e) => return Err(e),
            }
        },
        _ => {},
    }
    let declared: Option<&ShellDecl> = match &decl.shell {
        Some(s) => Some(s),
        None => match &defaults.shell {
            Some(s) => Some(s),
            None => None,
        },
    };
    let declared_decl = match declared {
        Some(s) => s.duplicate(),
        None => ShellDecl::Direct,
    };
    let resolved_shell = match declared_decl.resolve(bindings) {
        Ok(m) => m,
        Err(e) => {
            let msg = e.message();
            return Err(in_context(at, msg.as_str()));
        },
    };
    Ok((description, confirm, resolved_shell))
}

/// The binding half of what `resolve_source` does for a pane: the
/// load-site expansions, the shell inheritance and ladder, the argv
/// guarantee, and the precondition's own shell.
pub fn resolve_binding(
    decl: &KeyBindingDecl,
    defaults: &PaneDecl,
    block: &VariableBlock,
    bindings: &Bindings,
) -> (r: Result<KeyBinding, String>)
    ensures
        match binding_refusal(*decl, *defaults, *block, *bindings) {
            Some(m) => r is Err && r->Err_0@ == m,
            None => r is Ok && binding_built(*decl, *defaults, *block, *bindings, r->Ok_0),
        },
{
    let at = {
        let mut a = String::from_str("key ");
        let q = debug_quote(decl.spelling.as_str());
        a.append(q.as_str());
        a
    };
    let (description, confirm, resolved_shell) = match binding_texts_exec(decl, defaults, block, bindings, at.as_str()) {
        Ok(t) => t,
        Err(e) => return Err(e),
    };
    let declared: Option<&ShellDecl> = match &decl.shell {
        Some(s) => Some(s),
        None => match &defaults.shell {
            Some(s) => Some(s),
            None => None,
        },
    };
    let output = match &decl.output {
        Some(token) => {
            match refuse_deferred_at_load_site(token, "output", false, block, at.as_str()) {
                Ok(()) => {},
                Err(e) => return Err(e),
            }
            let text = match at_load(token, bindings) {
                Ok(t) => t,
                Err(e) => return Err(e),
            };
            let tv = chars_of(text.as_str());
            if crate::text::chars_eq(tv.as_slice(), "hide") {
                BindingOutput::Hide
            } else if crate::text::chars_eq(tv.as_slice(), "status") {
                BindingOutput::Status
            } else if crate::text::chars_eq(tv.as_slice(), "pager") {
                BindingOutput::Pager
            } else {
                let mut m = at.clone();
                m.append(": `output` takes \"hide\", \"status\", or \"pager\" — write `output \"status\"`");
                return Err(m);
            }
        },
        None => BindingOutput::Status,
    };
    let (program, shell) = match &decl.program {
        BindingProgram::Argv(argv) => {
            if argv.len() == 0 {
                let mut m = at.clone();
                m.append(": `command` is empty — a binding with nothing to run is a key that does nothing");
                return Err(m);
            }
            (BindingProgram::Argv(copy_templates(argv)), resolved_shell.duplicate())
        },
        BindingProgram::Script(body) => {
            let mode = match script_ladder(body, decl.shell.as_ref(), declared, &resolved_shell, at.as_str(), "binding") {
                Ok(m) => m,
                Err(e) => return Err(e),
            };
            (BindingProgram::Script(body.duplicate()), mode)
        },
    };
    let when_shell = match &decl.when {
        None => None,
        Some(_) => match declared {
            None => Some(ShellMode::Platform),
            Some(ShellDecl::Direct) => {
                let mut m = at.clone();
                m.append(": `when` is a command line and runs through a shell, but this binding declares `shell #false` — drop the `shell #false`, or drop the `when`");
                return Err(m);
            },
            Some(named) => match named.resolve(bindings) {
                Ok(m) => Some(m),
                Err(e) => {
                    let msg = e.message();
                    return Err(in_context(at.as_str(), msg.as_str()));
                },
            },
        },
    };
    let when = match &decl.when {
        Some(w) => Some(w.duplicate()),
        None => None,
    };
    Ok(KeyBinding {
        key: decl.key,
        spelling: decl.spelling.clone(),
        description,
        program,
        shell,
        when,
        when_shell,
        output,
        confirm,
    })
}

impl DashboardFile {
    /// Every binding, loaded against the same load-time values the
    /// panes expand against; the first refusal stops the load.
    pub fn resolve_bindings(&self, load: &Bindings) -> (r: Result<Vec<KeyBinding>, String>)
        ensures
            r is Ok ==> r->Ok_0@.len() == self.bindings@.len() && forall|i: int| 0 <= i < self.bindings@.len()
                ==> (#[trigger] r->Ok_0@[i]).key == self.bindings@[i].key,
            match bindings_refusal_from(self.bindings@, self.defaults, self.variables, *load, 0) {
                Some(m) => r is Err && r->Err_0@ == m,
                None => r is Ok && forall|i: int| 0 <= i < self.bindings@.len() ==> binding_built(
                    self.bindings@[i],
                    self.defaults,
                    self.variables,
                    *load,
                    #[trigger] r->Ok_0@[i],
                ),
            },
    {
        let mut out: Vec<KeyBinding> = Vec::new();
        let mut i: usize = 0;
        while i < self.bindings.len()
            invariant
                i <= self.bindings@.len(),
                out@.len() == i,
                forall|k: int| 0 <= k < i ==> (#[trigger] out@[k]).key == self.bindings@[k].key,
                forall|k: int| 0 <= k < i ==> binding_built(self.bindings@[k], self.defaults, self.variables, *load, #[trigger] out@[k]),
                bindings_refusal_from(self.bindings@, self.defaults, self.variables, *load, 0) == bindings_refusal_from(
                    self.bindings@,
                    self.defaults,
                    self.variables,
                    *load,
                    i as int,
                ),
            decreases self.bindings@.len() - i,
        {
            match resolve_binding(&self.bindings[i], &self.defaults, &self.variables, load) {
                Ok(b) => out.push(b),
                Err(e) => return Err(e),
            }
            i = i + 1;
        }
        Ok(out)
    }
}

/// The second half of a load, once the variables have their load-time
/// values: the registry and the key bindings, both expanded against
/// them. The panes are the board's substance, so a registry refusal is
/// reported before a binding refusal.
pub fn finish_load(file: DashboardFile, load: &Bindings) -> (r: Result<(Registry, Vec<KeyBinding>), String>)
    requires
        file.title matches Some(t) ==> t.text is Some || t.reference is Some,
    ensures
        match registry_refusal(file, *load) {
            Some(m) => r is Err && r->Err_0@ == m,
            None => match bindings_refusal_from(file.bindings@, file.defaults, file.variables, *load, 0) {
                Some(m) => r is Err && r->Err_0@ == m,
                None => r is Ok && registry_built(file, *load, r->Ok_0.0) && r->Ok_0.1@.len() == file.bindings@.len()
                    && forall|i: int| 0 <= i < file.bindings@.len() ==> binding_built(file.bindings@[i], file.defaults,
                    file.variables, *load, #[trigger] r->Ok_0.1@[i]),
            },
        },
{
    let ghost f = file;
    let key_bindings = file.resolve_bindings(load);
    let registry = match file.into_registry(load) {
        Ok(reg) => reg,
        Err(e) => return Err(e),
    };
    match key_bindings {
        Ok(k) => Ok((registry, k)),
        Err(e) => Err(e),
    }
}

} // verus!
