//! What a checker learns of a board without running anything: every
//! load-time site whose value can be known is read by the same token
//! grammar a run uses, and every site whose value hangs on a command is
//! recorded with the references that blocked it.

use vstd::prelude::*;
use vstd::string::*;

use crate::box_model::{parse_sides, preset_named_from, preset_names_text, sides_error, sides_spec};
use crate::dashboard_file::{
    at, at_text, deferred_site_text, first_deferred, in_context, inherit, overflow_spec, overflow_token, parse_border,
    parse_width, refuse_deferred_at_load_site, width_spec, DashboardFile, PaneDecl,
};
use crate::duration::{interval_outcome, parse_interval, IntervalOutcome};
use crate::partial::{expand_partial, expand_partial_spec, names_view, Expanded, Partial, Resolved};
use crate::registry::ShellDecl;
use crate::template::Template;
use crate::text::{chars_eq, chars_of, debug_str, starts_with, trim, trim_chars};
use crate::trigger::{parse_trigger, trigger_error};
use crate::variables::VariableBlock;

verus! {

/// The load-time keys of a pane, in the order they are audited.
#[derive(Clone, Copy, PartialEq, Eq, Debug)]
pub enum SiteKey {
    Trigger,
    Interval,
    TriggerDebounce,
    Width,
    Overflow,
    Border,
    Padding,
    Title,
    Shell,
}

pub open spec fn key_name(k: SiteKey) -> Seq<char> {
    match k {
        SiteKey::Trigger => "trigger"@,
        SiteKey::Interval => "interval"@,
        SiteKey::TriggerDebounce => "trigger-debounce"@,
        SiteKey::Width => "width"@,
        SiteKey::Overflow => "overflow"@,
        SiteKey::Border => "border"@,
        SiteKey::Padding => "padding"@,
        SiteKey::Title => "title"@,
        SiteKey::Shell => "shell"@,
    }
}

impl SiteKey {
    /// The key as a board spells it.
    pub fn name(&self) -> (s: &'static str)
        ensures
            s@ == key_name(*self),
    {
        match self {
            SiteKey::Trigger => "trigger",
            SiteKey::Interval => "interval",
            SiteKey::TriggerDebounce => "trigger-debounce",
            SiteKey::Width => "width",
            SiteKey::Overflow => "overflow",
            SiteKey::Border => "border",
            SiteKey::Padding => "padding",
            SiteKey::Title => "title",
            SiteKey::Shell => "shell",
        }
    }
}

/// Where a site was written.
#[derive(Clone, PartialEq, Eq, Debug)]
pub enum SiteOrigin {
    Pane(String),
    Defaults,
    Dashboard,
}

pub enum OriginView {
    Pane(Seq<char>),
    Defaults,
    Dashboard,
}

pub open spec fn origin_view(o: SiteOrigin) -> OriginView {
    match o {
        SiteOrigin::Pane(s) => OriginView::Pane(s@),
        SiteOrigin::Defaults => OriginView::Defaults,
        SiteOrigin::Dashboard => OriginView::Dashboard,
    }
}

/// A site whose value was known and passed its grammar.
pub struct AuditedSite {
    pub origin: SiteOrigin,
    pub key: SiteKey,
}

/// A site whose value could not be known without running something.
pub struct UncheckedSite {
    pub origin: SiteOrigin,
    pub key: SiteKey,
    /// The references that blocked it, verbatim.
    pub blockers: Vec<String>,
}

/// Every load-time site checked, and every one that could not be.
pub struct SiteAudit {
    pub checked: Vec<AuditedSite>,
    pub unchecked: Vec<UncheckedSite>,
}

/// One site to visit: where it was written, who its errors name, its
/// key, its value, and whether the pane inherited it.
pub struct Visit {
    pub origin: OriginView,
    pub subject: Seq<char>,
    pub key: SiteKey,
    pub value: Template,
    pub inherited: bool,
}

/// A value's sites for one key: the pane's own, else the defaults'.
pub open spec fn one_site(k: SiteKey, own: Option<Template>, dflt: Option<Template>) -> Seq<(SiteKey, Template, bool)> {
    match own {
        Some(t) => seq![(k, t, false)],
        None => match dflt {
            Some(t) => seq![(k, t, true)],
            None => seq![],
        },
    }
}

pub open spec fn each_trigger(v: Seq<Template>, inherited: bool) -> Seq<(SiteKey, Template, bool)> {
    Seq::new(v.len(), |i: int| (SiteKey::Trigger, v[i], inherited))
}

pub open spec fn triggers_of(own: Option<Vec<Template>>, dflt: Option<Vec<Template>>) -> Seq<(SiteKey, Template, bool)> {
    match own {
        Some(v) => each_trigger(v@, false),
        None => match dflt {
            Some(v) => each_trigger(v@, true),
            None => seq![],
        },
    }
}

pub open spec fn trigger_sites(decl: PaneDecl, defaults: PaneDecl) -> Seq<(SiteKey, Template, bool)> {
    triggers_of(decl.trigger, defaults.trigger)
}

pub open spec fn shell_of(own: Option<ShellDecl>, dflt: Option<ShellDecl>) -> Seq<(SiteKey, Template, bool)> {
    match own {
        Some(ShellDecl::Named(t)) => seq![(SiteKey::Shell, t, false)],
        Some(_) => seq![],
        None => match dflt {
            Some(ShellDecl::Named(t)) => seq![(SiteKey::Shell, t, true)],
            _ => seq![],
        },
    }
}

pub open spec fn shell_sites(decl: PaneDecl, defaults: PaneDecl) -> Seq<(SiteKey, Template, bool)> {
    shell_of(decl.shell, defaults.shell)
}

/// A pane's load-time sites, in audit order.
pub open spec fn pane_sites(decl: PaneDecl, defaults: PaneDecl) -> Seq<(SiteKey, Template, bool)> {
    trigger_sites(decl, defaults) + scalar_sites(decl, defaults) + shell_sites(decl, defaults)
}

/// A pane's site as a visit: an inherited value is the defaults' site.
pub open spec fn site_visit(s: (SiteKey, Template, bool), id: Seq<char>) -> Visit {
    Visit {
        origin: if s.2 { OriginView::Defaults } else { OriginView::Pane(id) },
        subject: at_text(id),
        key: s.0,
        value: s.1,
        inherited: s.2,
    }
}

pub open spec fn site_visits(sites: Seq<(SiteKey, Template, bool)>, id: Seq<char>) -> Seq<Visit> {
    sites.map_values(|s: (SiteKey, Template, bool)| site_visit(s, id))
}

pub open spec fn pane_id(decl: PaneDecl) -> Seq<char> {
    match decl.id {
        Some(s) => s@,
        None => seq![],
    }
}

/// A pane's sites as visits.
pub open spec fn pane_visits(decl: PaneDecl, defaults: PaneDecl) -> Seq<Visit> {
    site_visits(pane_sites(decl, defaults), pane_id(decl))
}

/// The first `n` panes' visits, in order.
pub open spec fn panes_visits(panes: Seq<PaneDecl>, defaults: PaneDecl, n: int) -> Seq<Visit>
    decreases n,
{
    if n <= 0 {
        seq![]
    } else {
        panes_visits(panes, defaults, n - 1) + pane_visits(panes[n - 1], defaults)
    }
}

/// Every site of the board: each pane's, then the dashboard's title text.
pub open spec fn board_visits(file: DashboardFile) -> Seq<Visit> {
    panes_visits(file.panes@, file.defaults, file.panes@.len() as int) + match file.title {
        Some(t) => match t.text {
            Some(x) => seq![Visit {
                origin: OriginView::Dashboard,
                subject: "the dashboard"@,
                key: SiteKey::Title,
                value: x,
                inherited: false,
            }],
            None => seq![],
        },
        None => seq![],
    }
}

/// Why a known value is refused by its key's grammar, if it is.
pub open spec fn token_refusal(k: SiteKey, text: Seq<char>, id: Seq<char>, dashboard: bool) -> Option<Seq<char>> {
    if dashboard {
        None
    } else {
        match k {
            SiteKey::Trigger => if starts_with(text, "file:"@) && text.len() > 5 {
                None
            } else {
                Some(at_text(id) + ": "@ + trigger_error(text))
            },
            SiteKey::Interval => if text == "never"@ {
                None
            } else {
                match interval_outcome(text) {
                    IntervalOutcome::Refused(m) => Some(at_text(id) + ": "@ + m),
                    _ => None,
                }
            },
            SiteKey::TriggerDebounce => match interval_outcome(text) {
                IntervalOutcome::Refused(m) => Some(at_text(id) + ": "@ + m),
                _ => None,
            },
            SiteKey::Width => if text == "auto"@ || width_spec(text) is Some {
                None
            } else {
                Some(at_text(id) + ": invalid width "@ + debug_str(text) + ": expected CELLS, Nfr, or auto"@)
            },
            SiteKey::Overflow => if overflow_spec(text) is Some {
                None
            } else {
                Some(at_text(id) + ": unknown overflow "@ + debug_str(text) + ": expected keep-top or keep-bottom"@)
            },
            SiteKey::Border => if preset_named_from(text, 0) is Some {
                None
            } else {
                Some(at_text(id) + ": unknown border "@ + debug_str(text) + ": expected one of "@ + preset_names_text())
            },
            SiteKey::Padding => if sides_spec(text) is Some {
                None
            } else {
                Some(at_text(id) + ": "@ + sides_error(text))
            },
            SiteKey::Title => None,
            SiteKey::Shell => if trim(text).len() == 0 {
                Some(at_text(id) + ": `shell` expanded to an empty name — a shell name must name a program"@)
            } else {
                None
            },
        }
    }
}

/// The audit so far: the sites checked and the sites left unchecked.
pub struct AuditView {
    pub checked: Seq<(OriginView, SiteKey)>,
    pub unchecked: Seq<(OriginView, SiteKey, Seq<Seq<char>>)>,
}

/// One visit: the load-time site rule, then the value as far as it can
/// be known, through its key's grammar when it is known.
pub open spec fn visit_step(a: AuditView, v: Visit, block: VariableBlock, partial: Partial) -> Result<AuditView, Seq<char>> {
    match first_deferred(v.value.refs@, block, 0) {
        Some(n) => Err(deferred_site_text(v.subject, key_name(v.key), v.inherited, n)),
        None => match expand_partial_spec(v.value, partial.entries@) {
            Ok(text) => match token_refusal(v.key, text, v.subject, v.origin is Dashboard) {
                Some(m) => Err(m),
                None => Ok(AuditView { checked: a.checked.push((v.origin, v.key)), unchecked: a.unchecked }),
            },
            Err(blocked) => Ok(AuditView { checked: a.checked, unchecked: a.unchecked.push((v.origin, v.key, blocked)) }),
        },
    }
}

/// The first `n` visits, in order; the first refusal stops the audit.
pub open spec fn audit_prefix(vs: Seq<Visit>, n: int, block: VariableBlock, partial: Partial) -> Result<AuditView, Seq<char>>
    decreases n,
{
    if n <= 0 {
        Ok(AuditView { checked: seq![], unchecked: seq![] })
    } else {
        match audit_prefix(vs, n - 1, block, partial) {
            Err(m) => Err(m),
            Ok(a) => visit_step(a, vs[n - 1], block, partial),
        }
    }
}

pub open spec fn audit_view(a: SiteAudit) -> AuditView {
    AuditView {
        checked: a.checked@.map_values(|s: AuditedSite| (origin_view(s.origin), s.key)),
        unchecked: a.unchecked@.map_values(|s: UncheckedSite| (origin_view(s.origin), s.key, names_view(s.blockers@))),
    }
}

/// A known value through its key's grammar.
fn check_token(k: SiteKey, text: &str, id: &str, dashboard: bool) -> (r: Result<(), String>)
    ensures
        match token_refusal(k, text@, id@, dashboard) {
            Some(m) => r is Err && r->Err_0@ == m,
            None => r is Ok,
        },
{
    if dashboard {
        return Ok(());
    }
    let cs = chars_of(text);
    match k {
        SiteKey::Trigger => match parse_trigger(text) {
            Ok(_) => Ok(()),
            Err(e) => Err(in_context(at(id).as_str(), e.as_str())),
        },
        SiteKey::Interval => {
            if chars_eq(cs.as_slice(), "never") {
                return Ok(());
            }
            match parse_interval(text) {
                Ok(_) => Ok(()),
                Err(e) => Err(in_context(at(id).as_str(), e.as_str())),
            }
        },
        SiteKey::TriggerDebounce => match parse_interval(text) {
            Ok(_) => Ok(()),
            Err(e) => Err(in_context(at(id).as_str(), e.as_str())),
        },
        SiteKey::Width => {
            if chars_eq(cs.as_slice(), "auto") {
                return Ok(());
            }
            match parse_width(text, id) {
                Ok(_) => Ok(()),
                Err(e) => Err(e),
            }
        },
        SiteKey::Overflow => match overflow_token(text, id) {
            Ok(_) => Ok(()),
            Err(e) => Err(e),
        },
        SiteKey::Border => match parse_border(text, id) {
            Ok(_) => Ok(()),
            Err(e) => Err(e),
        },
        SiteKey::Padding => match parse_sides(text) {
            Ok(_) => Ok(()),
            Err(e) => Err(in_context(at(id).as_str(), e.as_str())),
        },
        SiteKey::Title => Ok(()),
        SiteKey::Shell => {
            let t = trim_chars(cs.as_slice());
            if t.len() == 0 {
                let mut m = at(id);
                m.append(": `shell` expanded to an empty name — a shell name must name a program");
                Err(m)
            } else {
                Ok(())
            }
        },
    }
}

proof fn lemma_prefix_same(vs: Seq<Visit>, ws: Seq<Visit>, n: int, block: VariableBlock, partial: Partial)
    requires
        0 <= n <= vs.len(),
        n <= ws.len(),
        vs.take(n) == ws.take(n),
    ensures
        audit_prefix(vs, n, block, partial) == audit_prefix(ws, n, block, partial),
    decreases n,
{
    if n > 0 {
        assert(vs.take(n - 1) =~= vs.take(n).take(n - 1));
        assert(ws.take(n - 1) =~= ws.take(n).take(n - 1));
        lemma_prefix_same(vs, ws, n - 1, block, partial);
        assert(vs[n - 1] == vs.take(n)[n - 1]);
        assert(ws[n - 1] == ws.take(n)[n - 1]);
    }
}

/// One site: the load-time rule, then the value as far as it is known.
fn visit(
    a: &mut SiteAudit,
    origin: SiteOrigin,
    subject: &str,
    key: SiteKey,
    value: &Template,
    inherited: bool,
    block: &VariableBlock,
    partial: &Partial,
) -> (r: Result<(), String>)
    ensures
        match visit_step(
            audit_view(*old(a)),
            Visit { origin: origin_view(origin), subject: subject@, key, value: *value, inherited },
            *block,
            *partial,
        ) {
            Ok(v) => r is Ok && audit_view(*final(a)) == v,
            Err(m) => r is Err && r->Err_0@ == m,
        },
{
    match refuse_deferred_at_load_site(value, key.name(), inherited, block, subject) {
        Ok(()) => {},
        Err(e) => return Err(e),
    }
    let dashboard = match &origin {
        SiteOrigin::Dashboard => true,
        _ => false,
    };
    match expand_partial(value, partial) {
        Expanded::Known(text) => {
            match check_token(key, text.as_str(), subject, dashboard) {
                Ok(()) => {},
                Err(e) => return Err(e),
            }
            let ghost before = a.checked@;
            a.checked.push(AuditedSite { origin, key });
            proof {
                assert(a.checked@.map_values(|s: AuditedSite| (origin_view(s.origin), s.key)) =~= before.map_values(
                    |s: AuditedSite| (origin_view(s.origin), s.key),
                ).push((origin_view(origin), key)));
            }
            Ok(())
        },
        Expanded::Skipped(blockers) => {
            let ghost before = a.unchecked@;
            let ghost bl = names_view(blockers@);
            a.unchecked.push(UncheckedSite { origin, key, blockers });
            proof {
                assert(a.unchecked@.map_values(|s: UncheckedSite| (origin_view(s.origin), s.key, names_view(s.blockers@)))
                    =~= before.map_values(|s: UncheckedSite| (origin_view(s.origin), s.key, names_view(s.blockers@))).push(
                    (origin_view(origin), key, bl),
                ));
            }
            Ok(())
        },
    }
}

/// A site to visit, pointing at its value in the file.
pub struct VisitRef<'a> {
    pub origin: SiteOrigin,
    pub subject: String,
    pub key: SiteKey,
    pub value: &'a Template,
    pub inherited: bool,
}

pub open spec fn visit_of(r: VisitRef) -> Visit {
    Visit { origin: origin_view(r.origin), subject: r.subject@, key: r.key, value: *r.value, inherited: r.inherited }
}

pub open spec fn visits_view(v: Seq<VisitRef>) -> Seq<Visit> {
    v.map_values(|r: VisitRef| visit_of(r))
}

/// Push a value's site, when the pane or its defaults have one.
fn push_one<'a>(
    out: &mut Vec<VisitRef<'a>>,
    pane: &String,
    subject: &String,
    key: SiteKey,
    own: &'a Option<Template>,
    dflt: &'a Option<Template>,
)
    requires
        subject@ == at_text(pane@),
    ensures
        visits_view(final(out)@) == visits_view(old(out)@) + site_visits(one_site(key, *own, *dflt), pane@),
{
    let ghost before = out@;
    match inherit(own.as_ref(), dflt.as_ref()) {
        Some((t, inh)) => {
            let origin = if inh { SiteOrigin::Defaults } else { SiteOrigin::Pane(pane.clone()) };
            let subj = subject.clone();
            out.push(VisitRef { origin, subject: subj, key, value: t, inherited: inh });
            assert(visit_of(out@[out@.len() - 1]) == site_visit((key, *t, inh), pane@));
        },
        None => {},
    }
    assert(visits_view(out@) =~= visits_view(before) + site_visits(one_site(key, *own, *dflt), pane@));
}

/// The sites of a pane between its triggers and its shell.
pub open spec fn scalar_sites(decl: PaneDecl, d: PaneDecl) -> Seq<(SiteKey, Template, bool)> {
    one_site(SiteKey::Interval, decl.interval, d.interval) + one_site(SiteKey::TriggerDebounce, decl.trigger_debounce, d.trigger_debounce)
        + one_site(SiteKey::Width, decl.width, d.width) + one_site(SiteKey::Overflow, decl.overflow, d.overflow)
        + one_site(SiteKey::Border, decl.border, d.border) + one_site(SiteKey::Padding, decl.padding, d.padding)
        + one_site(SiteKey::Title, decl.title, d.title)
}

proof fn lemma_site_visits_concat(a: Seq<(SiteKey, Template, bool)>, b: Seq<(SiteKey, Template, bool)>, id: Seq<char>)
    ensures
        site_visits(a + b, id) == site_visits(a, id) + site_visits(b, id),
{
    assert(site_visits(a + b, id) =~= site_visits(a, id) + site_visits(b, id));
}

#[verifier::rlimit(40)]
fn push_scalars<'a>(out: &mut Vec<VisitRef<'a>>, pane: &String, subject: &String, decl: &'a PaneDecl, d: &'a PaneDecl)
    requires
        subject@ == at_text(pane@),
    ensures
        visits_view(final(out)@) == visits_view(old(out)@) + site_visits(scalar_sites(*decl, *d), pane@),
{
    let ghost s0 = visits_view(out@);
    push_one(out, pane, subject, SiteKey::Interval, &decl.interval, &d.interval);
    push_one(out, pane, subject, SiteKey::TriggerDebounce, &decl.trigger_debounce, &d.trigger_debounce);
    push_one(out, pane, subject, SiteKey::Width, &decl.width, &d.width);
    push_one(out, pane, subject, SiteKey::Overflow, &decl.overflow, &d.overflow);
    push_one(out, pane, subject, SiteKey::Border, &decl.border, &d.border);
    push_one(out, pane, subject, SiteKey::Padding, &decl.padding, &d.padding);
    push_one(out, pane, subject, SiteKey::Title, &decl.title, &d.title);
    proof {
        let id = pane@;
        let i1 = one_site(SiteKey::Interval, decl.interval, d.interval);
        let i2 = one_site(SiteKey::TriggerDebounce, decl.trigger_debounce, d.trigger_debounce);
        let i3 = one_site(SiteKey::Width, decl.width, d.width);
        let i4 = one_site(SiteKey::Overflow, decl.overflow, d.overflow);
        let i5 = one_site(SiteKey::Border, decl.border, d.border);
        let i6 = one_site(SiteKey::Padding, decl.padding, d.padding);
        let i7 = one_site(SiteKey::Title, decl.title, d.title);
        lemma_site_visits_concat(i1, i2, id);
        lemma_site_visits_concat(i1 + i2, i3, id);
        lemma_site_visits_concat(i1 + i2 + i3, i4, id);
        lemma_site_visits_concat(i1 + i2 + i3 + i4, i5, id);
        lemma_site_visits_concat(i1 + i2 + i3 + i4 + i5, i6, id);
        lemma_site_visits_concat(i1 + i2 + i3 + i4 + i5 + i6, i7, id);
        assert(visits_view(out@) =~= s0 + site_visits(scalar_sites(*decl, *d), id));
    }
}

/// A site's origin, copied.
fn copy_origin(o: &SiteOrigin) -> (r: SiteOrigin)
    ensures
        origin_view(r) == origin_view(*o),
{
    match o {
        SiteOrigin::Pane(s) => SiteOrigin::Pane(s.clone()),
        SiteOrigin::Defaults => SiteOrigin::Defaults,
        SiteOrigin::Dashboard => SiteOrigin::Dashboard,
    }
}

/// A pane's trigger sites, pushed in order.
fn push_triggers<'a>(
    out: &mut Vec<VisitRef<'a>>,
    pane: &String,
    subject: &String,
    own: &'a Option<Vec<Template>>,
    dflt: &'a Option<Vec<Template>>,
)
    requires
        subject@ == at_text(pane@),
    ensures
        visits_view(final(out)@) == visits_view(old(out)@) + site_visits(triggers_of(*own, *dflt), pane@),
{
    let ghost id = pane@;
    let ghost start = visits_view(out@);
    let ghost triggers = triggers_of(*own, *dflt);
    match inherit(own.as_ref(), dflt.as_ref()) {
        Some((specs, inh)) => {
            let mut k: usize = 0;
            while k < specs.len()
                invariant
                    k <= specs@.len(),
                    triggers == each_trigger(specs@, inh),
                    subject@ == at_text(pane@),
                    id == pane@,
                    visits_view(out@) == start + site_visits(triggers.take(k as int), id),
                decreases specs@.len() - k,
            {
                let origin = if inh { SiteOrigin::Defaults } else { SiteOrigin::Pane(pane.clone()) };
                let subj = subject.clone();
                let ghost before = visits_view(out@);
                assert(triggers[k as int] == (SiteKey::Trigger, specs@[k as int], inh));
                out.push(VisitRef { origin, subject: subj, key: SiteKey::Trigger, value: &specs[k], inherited: inh });
                assert(visit_of(out@[out@.len() - 1]) == site_visit(triggers[k as int], id));
                assert(visits_view(out@) =~= before.push(site_visit(triggers[k as int], id)));
                assert(site_visits(triggers.take(k + 1), id) =~= site_visits(triggers.take(k as int), id).push(
                    site_visit(triggers[k as int], id),
                ));
                k = k + 1;
            }
            assert(triggers.take(specs@.len() as int) =~= triggers);
        },
        None => {
            assert(site_visits(triggers, id) =~= seq![]);
            assert(visits_view(out@) =~= start + site_visits(triggers, id));
        },
    }
}

/// A pane's named shell, pushed when it has one.
fn push_shell<'a>(out: &mut Vec<VisitRef<'a>>, pane: &String, subject: &String, own: &'a Option<ShellDecl>, dflt: &'a Option<ShellDecl>)
    requires
        subject@ == at_text(pane@),
    ensures
        visits_view(final(out)@) == visits_view(old(out)@) + site_visits(shell_of(*own, *dflt), pane@),
{
    let ghost before = visits_view(out@);
    match inherit(own.as_ref(), dflt.as_ref()) {
        Some((ShellDecl::Named(t), inh)) => {
            let origin = if inh { SiteOrigin::Defaults } else { SiteOrigin::Pane(pane.clone()) };
            let subj = subject.clone();
            out.push(VisitRef { origin, subject: subj, key: SiteKey::Shell, value: t, inherited: inh });
            assert(visit_of(out@[out@.len() - 1]) == site_visit((SiteKey::Shell, *t, inh), pane@));
        },
        _ => {},
    }
    assert(visits_view(out@) =~= before + site_visits(shell_of(*own, *dflt), pane@));
}

/// One pane's sites, pushed in audit order.
fn push_pane<'a>(out: &mut Vec<VisitRef<'a>>, decl: &'a PaneDecl, d: &'a PaneDecl)
    ensures
        visits_view(final(out)@) == visits_view(old(out)@) + pane_visits(*decl, *d),
{
    let pane: String = match &decl.id {
        Some(s) => s.clone(),
        None => String::new(),
    };
    let subject = at(pane.as_str());
    assert(pane@ == pane_id(*decl));
    let ghost start = visits_view(out@);
    push_triggers(out, &pane, &subject, &decl.trigger, &d.trigger);
    push_scalars(out, &pane, &subject, decl, d);
    push_shell(out, &pane, &subject, &decl.shell, &d.shell);
    proof {
        let id = pane@;
        let t = trigger_sites(*decl, *d);
        let m = scalar_sites(*decl, *d);
        let sh = shell_sites(*decl, *d);
        lemma_site_visits_concat(t, m, id);
        lemma_site_visits_concat(t + m, sh, id);
        assert(visits_view(out@) =~= start + pane_visits(*decl, *d));
    }
}

/// Every site of the board, in audit order.
fn collect_visits<'a>(file: &'a DashboardFile) -> (r: Vec<VisitRef<'a>>)
    ensures
        visits_view(r@) == board_visits(*file),
{
    let mut out: Vec<VisitRef<'a>> = Vec::new();
    assert(visits_view(out@) =~= seq![]);
    let mut i: usize = 0;
    while i < file.panes.len()
        invariant
            i <= file.panes@.len(),
            visits_view(out@) == panes_visits(file.panes@, file.defaults, i as int),
        decreases file.panes@.len() - i,
    {
        push_pane(&mut out, &file.panes[i], &file.defaults);
        i = i + 1;
    }
    let ghost before_title = visits_view(out@);
    match &file.title {
        Some(t) => match &t.text {
            Some(x) => {
                out.push(VisitRef {
                    origin: SiteOrigin::Dashboard,
                    subject: String::from_str("the dashboard"),
                    key: SiteKey::Title,
                    value: x,
                    inherited: false,
                });
                assert(visits_view(out@) =~= before_title.push(visit_of(out@[out@.len() - 1])));
            },
            None => {},
        },
        None => {},
    }
    assert(visits_view(out@) =~= board_visits(*file));
    out
}

proof fn lemma_err_stays(vs: Seq<Visit>, n: int, m: int, block: VariableBlock, partial: Partial)
    requires
        0 <= n <= m,
        audit_prefix(vs, n, block, partial) is Err,
    ensures
        audit_prefix(vs, m, block, partial) == audit_prefix(vs, n, block, partial),
    decreases m - n,
{
    if n < m {
        lemma_err_stays(vs, n, m - 1, block, partial);
    }
}

impl DashboardFile {
    /// The `check` entry point: every load-time site of every pane, in
    /// order, then the dashboard's title. A known value runs the real
    /// token grammar, so a malformed one refuses as a run would; a value
    /// that hangs on a command becomes an unchecked row naming what
    /// blocked it. The first refusal stops the audit.
    pub fn audit_sites(&self, partial: &Partial) -> (r: Result<SiteAudit, String>)
        ensures
            match audit_prefix(board_visits(*self), board_visits(*self).len() as int, self.variables, *partial) {
                Ok(v) => r is Ok && audit_view(r->Ok_0) == v,
                Err(m) => r is Err && r->Err_0@ == m,
            },
    {
        let visits = collect_visits(self);
        let ghost vs = visits_view(visits@);
        let mut a = SiteAudit { checked: Vec::new(), unchecked: Vec::new() };
        assert(audit_view(a).checked =~= seq![]);
        assert(audit_view(a).unchecked =~= seq![]);
        let mut k: usize = 0;
        while k < visits.len()
            invariant
                k <= visits@.len(),
                vs == visits_view(visits@),
                vs == board_visits(*self),
                audit_prefix(vs, k as int, self.variables, *partial) == Ok::<AuditView, Seq<char>>(audit_view(a)),
            decreases visits@.len() - k,
        {
            let v = &visits[k];
            assert(vs[k as int] == visit_of(*v));
            let origin = copy_origin(&v.origin);
            match visit(&mut a, origin, v.subject.as_str(), v.key, v.value, v.inherited, &self.variables, partial) {
                Ok(()) => {},
                Err(e) => {
                    proof {
                        lemma_err_stays(vs, k + 1, vs.len() as int, self.variables, *partial);
                    }
                    return Err(e);
                },
            }
            k = k + 1;
        }
        Ok(a)
    }
}

} // verus!
