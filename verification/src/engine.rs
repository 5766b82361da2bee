//! The engine: the configured applications, the run-time state of each (status,
//! bounded log buffer, health), which of them have a live supervisor, and the
//! views the frontends poll, with incremental log delivery.

use vstd::prelude::*;
use std::collections::VecDeque;
use crate::app_config::{
    clone_opt_string, clone_pairs, empty_summary, first_with_id, is_random_uuid, merge_all, new_app_id,
    opt_view, other_id, pairs_view, AppConfig, AppConfigList, AppConfigView, AppKind, ImportSummary,
};
use crate::process_manager::{is_active_status, AppStatus, StatusView};
use crate::log_stream::{Event, EventView};
use crate::text::{join, join_strings, views, lemma_views_push};

verus! {

broadcast use vstd::std_specs::vecdeque::group_vec_dequeue_axioms;

/// Most log lines kept per application; older lines are dropped first.
pub const MAX_LOG_LINES: usize = 5000;

/// Run-time state of one application, as plain values.
#[verifier::ext_equal]
pub struct RuntimeView {
    pub status: StatusView,
    /// The buffered lines, oldest first.
    pub logs: Seq<Seq<char>>,
    /// Sequence number of the oldest buffered line: how many lines were
    /// dropped or cleared before it.
    pub base: nat,
    pub healthy: Option<bool>,
}

/// The state of an application that has not run yet.
pub open spec fn fresh_runtime() -> RuntimeView {
    RuntimeView { status: StatusView::Stopped, logs: Seq::empty(), base: 0, healthy: None }
}

/// `line` appended to the buffer, the oldest lines dropped beyond `MAX_LOG_LINES`.
pub open spec fn pushed(rt: RuntimeView, line: Seq<char>) -> RuntimeView {
    let all = rt.logs.push(line);
    let dropped: nat = if all.len() > MAX_LOG_LINES { (all.len() - MAX_LOG_LINES) as nat } else { 0 };
    RuntimeView { logs: all.skip(dropped as int), base: rt.base + dropped, ..rt }
}

/// The buffer emptied; the sequence numbers of the cleared lines stay used.
pub open spec fn cleared(rt: RuntimeView) -> RuntimeView {
    RuntimeView { logs: Seq::empty(), base: rt.base + rt.logs.len(), ..rt }
}

/// Sequence number the next line will get.
pub open spec fn next_seq(rt: RuntimeView) -> nat {
    rt.base + rt.logs.len()
}

struct AppRuntime {
    id: u128,
    status: AppStatus,
    logs: VecDeque<String>,
    log_base_seq: u64,
    healthy: Option<bool>,
}

impl AppRuntime {
    closed spec fn view(&self) -> RuntimeView {
        RuntimeView {
            status: self.status@,
            logs: self.logs@.map_values(|l: String| l@),
            base: self.log_base_seq as nat,
            healthy: self.healthy,
        }
    }

    closed spec fn wf(&self) -> bool {
        &&& self.logs@.len() <= MAX_LOG_LINES
        &&& self.log_base_seq + self.logs@.len() <= u64::MAX
    }

    fn new(id: u128) -> (r: AppRuntime)
        ensures
            r.id == id,
            r.wf(),
            r.view() == fresh_runtime(),
    {
        let r = AppRuntime {
            id,
            status: AppStatus::Stopped,
            logs: VecDeque::new(),
            log_base_seq: 0,
            healthy: None,
        };
        assert(r.view().logs =~= Seq::<Seq<char>>::empty());
        r
    }

    fn push_log(&mut self, line: String)
        requires
            old(self).wf(),
            next_seq(old(self).view()) < u64::MAX,
        ensures
            final(self).wf(),
            final(self).id == old(self).id,
            final(self).view() == pushed(old(self).view(), line@),
    {
        let ghost all = self.logs@.map_values(|l: String| l@).push(line@);
        self.logs.push_back(line);
        assert(self.logs@.map_values(|l: String| l@) =~= all);
        // The buffer held at most MAX_LOG_LINES lines, so at most one is dropped.
        if self.logs.len() > MAX_LOG_LINES {
            self.logs.pop_front();
            self.log_base_seq = self.log_base_seq + 1;
            assert(self.logs@.map_values(|l: String| l@) =~= all.skip(1));
        } else {
            assert(all.skip(0) =~= all);
        }
        assert(self.view() =~= pushed(old(self).view(), line@));
    }

    fn clear_logs(&mut self)
        requires
            old(self).wf(),
        ensures
            final(self).wf(),
            final(self).id == old(self).id,
            final(self).view() == cleared(old(self).view()),
    {
        self.log_base_seq = self.log_base_seq + self.logs.len() as u64;
        self.logs.clear();
        assert(self.view() =~= cleared(old(self).view()));
    }
}


spec fn runtime_map(v: Seq<AppRuntime>) -> Map<u128, RuntimeView> {
    Map::new(
        |id: u128| exists|i: int| 0 <= i < v.len() && v[i].id == id,
        |id: u128| v[choose|i: int| 0 <= i < v.len() && v[i].id == id].view(),
    )
}

spec fn distinct_ids(v: Seq<AppRuntime>) -> bool {
    forall|i: int, j: int| 0 <= i < v.len() && 0 <= j < v.len() && i != j ==> v[i].id != v[j].id
}

spec fn all_wf(v: Seq<AppRuntime>) -> bool {
    forall|i: int| 0 <= i < v.len() ==> #[trigger] v[i].wf()
}

proof fn lemma_map_at(v: Seq<AppRuntime>, i: int)
    requires
        distinct_ids(v),
        0 <= i < v.len(),
    ensures
        runtime_map(v).dom().contains(v[i].id),
        runtime_map(v)[v[i].id] == v[i].view(),
{
    let id = v[i].id;
    assert(exists|k: int| 0 <= k < v.len() && v[k].id == id);
    let k = choose|k: int| 0 <= k < v.len() && v[k].id == id;
    assert(k == i);
}

proof fn lemma_map_update(v: Seq<AppRuntime>, i: int, r: AppRuntime)
    requires
        distinct_ids(v),
        0 <= i < v.len(),
        r.id == v[i].id,
    ensures
        distinct_ids(v.update(i, r)),
        runtime_map(v.update(i, r)) == runtime_map(v).insert(r.id, r.view()),
{
    let w = v.update(i, r);
    assert forall|id: u128| #[trigger] runtime_map(w).dom().contains(id) == runtime_map(v).insert(r.id, r.view()).dom().contains(id) by {
        if exists|k: int| 0 <= k < v.len() && v[k].id == id {
            let k = choose|k: int| 0 <= k < v.len() && v[k].id == id;
            assert(w[k].id == id);
        }
        if exists|k: int| 0 <= k < w.len() && w[k].id == id {
            let k = choose|k: int| 0 <= k < w.len() && w[k].id == id;
            if k != i {
                assert(v[k].id == id);
            }
        }
    }
    assert forall|id: u128| #[trigger] runtime_map(w).dom().contains(id) implies runtime_map(w)[id] == runtime_map(v).insert(r.id, r.view())[id] by {
        let k = choose|k: int| 0 <= k < w.len() && w[k].id == id;
        if k == i {
            lemma_map_at(w, i);
        } else {
            assert(v[k].id == id);
            lemma_map_at(v, k);
            lemma_map_at(w, k);
        }
    }
    assert(runtime_map(w) =~= runtime_map(v).insert(r.id, r.view()));
}

proof fn lemma_map_push(v: Seq<AppRuntime>, r: AppRuntime)
    requires
        distinct_ids(v),
        !runtime_map(v).dom().contains(r.id),
    ensures
        distinct_ids(v.push(r)),
        runtime_map(v.push(r)) == runtime_map(v).insert(r.id, r.view()),
{
    let w = v.push(r);
    assert forall|i: int, j: int| 0 <= i < w.len() && 0 <= j < w.len() && i != j implies w[i].id != w[j].id by {
        if i == v.len() {
            assert(runtime_map(v).dom().contains(v[j].id) ==> true);
            assert(!(exists|k: int| 0 <= k < v.len() && v[k].id == r.id));
            assert(v[j].id != r.id);
        } else if j == v.len() {
            assert(!(exists|k: int| 0 <= k < v.len() && v[k].id == r.id));
            assert(v[i].id != r.id);
        }
    }
    assert forall|id: u128| #[trigger] runtime_map(w).dom().contains(id) == runtime_map(v).insert(r.id, r.view()).dom().contains(id) by {
        if exists|k: int| 0 <= k < v.len() && v[k].id == id {
            let k = choose|k: int| 0 <= k < v.len() && v[k].id == id;
            assert(w[k].id == id);
        }
        if id == r.id {
            assert(w[v.len() as int].id == id);
        }
        if exists|k: int| 0 <= k < w.len() && w[k].id == id {
            let k = choose|k: int| 0 <= k < w.len() && w[k].id == id;
            if k < v.len() {
                assert(v[k].id == id);
            }
        }
    }
    assert forall|id: u128| #[trigger] runtime_map(w).dom().contains(id) implies runtime_map(w)[id] == runtime_map(v).insert(r.id, r.view())[id] by {
        let k = choose|k: int| 0 <= k < w.len() && w[k].id == id;
        lemma_map_at(w, k);
        if k < v.len() {
            assert(v[k].id == id);
            lemma_map_at(v, k);
        }
    }
    assert(runtime_map(w) =~= runtime_map(v).insert(r.id, r.view()));
}

proof fn lemma_map_remove(v: Seq<AppRuntime>, i: int)
    requires
        distinct_ids(v),
        0 <= i < v.len(),
    ensures
        distinct_ids(v.remove(i)),
        runtime_map(v.remove(i)) == runtime_map(v).remove(v[i].id),
{
    let w = v.remove(i);
    let gone = v[i].id;
    assert forall|a: int, b: int| 0 <= a < w.len() && 0 <= b < w.len() && a != b implies w[a].id != w[b].id by {
        let a2 = if a < i { a } else { a + 1 };
        let b2 = if b < i { b } else { b + 1 };
        assert(w[a] == v[a2] && w[b] == v[b2]);
    }
    assert forall|id: u128| #[trigger] runtime_map(w).dom().contains(id) == runtime_map(v).remove(gone).dom().contains(id) by {
        if exists|k: int| 0 <= k < w.len() && w[k].id == id {
            let k = choose|k: int| 0 <= k < w.len() && w[k].id == id;
            let k2 = if k < i { k } else { k + 1 };
            assert(v[k2].id == id);
            assert(k2 != i);
        }
        if id != gone && exists|k: int| 0 <= k < v.len() && v[k].id == id {
            let k = choose|k: int| 0 <= k < v.len() && v[k].id == id;
            assert(k != i);
            let k2 = if k < i { k } else { k - 1 };
            assert(w[k2].id == id);
        }
    }
    assert forall|id: u128| #[trigger] runtime_map(w).dom().contains(id) implies runtime_map(w)[id] == runtime_map(v).remove(gone)[id] by {
        let k = choose|k: int| 0 <= k < w.len() && w[k].id == id;
        let k2 = if k < i { k } else { k + 1 };
        assert(v[k2] == w[k]);
        lemma_map_at(w, k);
        lemma_map_at(v, k2);
    }
    assert(runtime_map(w) =~= runtime_map(v).remove(gone));
}

/// Whether one of the first `n` configurations has the id `x`.
pub open spec fn has_id_before(apps: Seq<AppConfigView>, n: int, x: u128) -> bool {
    exists|k: int| 0 <= k < n && apps[k].id == x
}

proof fn lemma_contains_push(s: Seq<u128>, x: u128)
    ensures
        forall|y: u128| #[trigger] s.push(x).contains(y) <==> (s.contains(y) || y == x),
{
    assert forall|y: u128| #[trigger] s.push(x).contains(y) <==> (s.contains(y) || y == x) by {
        if s.push(x).contains(y) {
            let k = choose|k: int| 0 <= k < s.len() + 1 && #[trigger] s.push(x)[k] == y;
            if k < s.len() {
                assert(s[k] == y);
            }
        }
        if s.contains(y) {
            let k = choose|k: int| 0 <= k < s.len() && #[trigger] s[k] == y;
            assert(s.push(x)[k] == y);
        }
        if y == x {
            assert(s.push(x)[s.len() as int] == y);
        }
    }
}

/// The engine's state as plain values.
#[verifier::ext_equal]
pub struct EngineView {
    /// The configured applications, in order.
    pub config: Seq<AppConfigView>,
    /// Run-time state by application id.
    pub runtimes: Map<u128, RuntimeView>,
    /// The applications with a live supervisor.
    pub running: Set<u128>,
    /// Counter that moves whenever something a frontend shows has changed.
    pub revision: nat,
}

/// The application launcher's state: configuration, run-time state per
/// application, the applications with a live supervisor, and a revision counter.
///
/// The run-time states are a vector holding one entry per id (the `wf`
/// invariant), viewed as a map by id: a state is found by a verified search,
/// taken out, updated and put back at its index, and removing an application
/// keeps the others' order. The applications with a live supervisor are a
/// vector viewed as a set. Frontends go through these views only, so nothing
/// depends on how a hash map would have ordered its entries.
pub struct Engine {
    config: AppConfigList,
    runtimes: Vec<AppRuntime>,
    running: Vec<u128>,
    revision: u64,
}

impl View for Engine {
    type V = EngineView;

    closed spec fn view(&self) -> EngineView {
        EngineView {
            config: self.config@,
            runtimes: runtime_map(self.runtimes@),
            running: Set::new(|id: u128| self.running@.contains(id)),
            revision: self.revision as nat,
        }
    }
}

/// What the caller of `apply_event` has to do besides.
#[derive(Debug, Clone, Copy, PartialEq, Eq)]
pub enum EventEffect {
    Nothing,
    /// The application's supervision ended: drop its handle and its usage figures.
    Ended(u128),
    /// "Start all" reached an application without a live supervisor: start it now.
    StartWanted(u128),
}

/// The state after one reported event.
pub open spec fn spec_apply(v: EngineView, e: EventView) -> EngineView {
    match e {
        EventView::Log(id, line) => if v.runtimes.dom().contains(id) {
            EngineView { runtimes: v.runtimes.insert(id, pushed(v.runtimes[id], line)), ..v }
        } else {
            v
        },
        EventView::StatusChanged(id, s) => {
            let terminal = !is_active_status(s);
            let runtimes = if v.runtimes.dom().contains(id) {
                let rt = v.runtimes[id];
                v.runtimes.insert(id, RuntimeView { status: s, healthy: if terminal { None } else { rt.healthy }, ..rt })
            } else {
                v.runtimes
            };
            EngineView { runtimes, running: if terminal { v.running.remove(id) } else { v.running }, ..v }
        },
        EventView::HealthChanged(id, h) => if v.runtimes.dom().contains(id) {
            EngineView { runtimes: v.runtimes.insert(id, RuntimeView { healthy: Some(h), ..v.runtimes[id] }), ..v }
        } else {
            v
        },
        EventView::StartRequested(_) => v,
    }
}

/// What the caller has to do after one reported event.
pub open spec fn spec_effect(v: EngineView, e: EventView) -> EventEffect {
    match e {
        EventView::StatusChanged(id, s) => if !is_active_status(s) { EventEffect::Ended(id) } else { EventEffect::Nothing },
        EventView::StartRequested(id) => if v.running.contains(id) { EventEffect::Nothing } else { EventEffect::StartWanted(id) },
        _ => EventEffect::Nothing,
    }
}

/// The label a frontend shows for a status.
pub open spec fn spec_status_label(s: StatusView) -> Seq<char> {
    match s {
        StatusView::Stopped => "stopped"@,
        StatusView::Building => "building"@,
        StatusView::Running => "running"@,
        StatusView::Failed(_) => "failed"@,
    }
}

pub fn status_label(status: &AppStatus) -> (r: &'static str)
    ensures
        r@ == spec_status_label(status@),
{
    match status {
        AppStatus::Stopped => "stopped",
        AppStatus::Building => "building",
        AppStatus::Running => "running",
        AppStatus::Failed(_) => "failed",
    }
}

/// The log lines shipped to a client that has seen every line numbered below
/// `since`, the sequence number of the first shipped line, and whether they
/// replace what the client holds. A client that is caught up (or claims to be
/// ahead) gets the lines it has not seen; one that missed lines that were
/// dropped or cleared gets the whole buffer as a replacement.
pub open spec fn delivered(rt: RuntimeView, since: nat) -> (Seq<Seq<char>>, nat, bool) {
    if since >= rt.base {
        let unseen = since - rt.base;
        let skip: int = if unseen <= rt.logs.len() { unseen } else { rt.logs.len() as int };
        (rt.logs.skip(skip), since, false)
    } else {
        (rt.logs, rt.base, true)
    }
}

/// What a frontend is shown of one application.
#[derive(Debug, Clone)]
pub struct AppView {
    pub id: u128,
    pub name: String,
    pub working_dir: String,
    pub kind: AppKind,
    pub command: String,
    pub url: Option<String>,
    pub env_vars: Vec<(String, String)>,
    pub auto_restart: bool,
    pub start_order: i32,
    pub status_label: &'static str,
    pub error: Option<String>,
    pub active: bool,
    pub logs: Vec<String>,
    pub logs_base_seq: u64,
    pub logs_replace: bool,
    /// `None` until a probe answered while the application ran.
    pub healthy: Option<bool>,
}

#[verifier::ext_equal]
pub struct AppShown {
    pub config: AppConfigView,
    pub status_label: Seq<char>,
    pub error: Option<Seq<char>>,
    pub active: bool,
    pub logs: Seq<Seq<char>>,
    pub logs_base_seq: nat,
    pub logs_replace: bool,
    pub healthy: Option<bool>,
}

impl View for AppView {
    type V = AppShown;

    open spec fn view(&self) -> AppShown {
        AppShown {
            config: AppConfigView {
                id: self.id,
                name: self.name@,
                working_dir: self.working_dir@,
                command: self.command@,
                kind: self.kind,
                url: opt_view(self.url),
                env_vars: pairs_view(self.env_vars@),
                auto_restart: self.auto_restart,
                start_order: self.start_order,
            },
            status_label: self.status_label@,
            error: opt_view_str(self.error),
            active: self.active,
            logs: views(self.logs@),
            logs_base_seq: self.logs_base_seq as nat,
            logs_replace: self.logs_replace,
            healthy: self.healthy,
        }
    }
}

pub open spec fn opt_view_str(o: Option<String>) -> Option<Seq<char>> {
    opt_view(o)
}

/// What a frontend is shown of `app`; it gets log lines only when it asked
/// for this application's.
pub open spec fn spec_shown(v: EngineView, app: AppConfigView, logs_for: Option<(u128, u64)>) -> AppShown {
    let rt = runtime_of(v, app.id);
    let (logs, base, replace) = match logs_for {
        Some((id, since)) => if id == app.id { delivered(rt, since as nat) } else { (Seq::empty(), 0nat, false) },
        None => (Seq::empty(), 0nat, false),
    };
    AppShown {
        config: app,
        status_label: spec_status_label(rt.status),
        error: match rt.status {
            StatusView::Failed(m) => Some(m),
            _ => None,
        },
        active: is_active_status(rt.status),
        logs,
        logs_base_seq: base,
        logs_replace: replace,
        healthy: rt.healthy,
    }
}

/// The editable fields of an application, for creating and for editing it.
#[derive(Debug, Clone)]
pub struct AppDraft {
    pub name: String,
    pub working_dir: String,
    pub kind: AppKind,
    pub command: String,
    pub url: Option<String>,
    pub env_vars: Vec<(String, String)>,
    pub auto_restart: bool,
    pub start_order: i32,
}

impl Default for AppDraft {
    fn default() -> (r: AppDraft)
        ensures
            r.name@ == Seq::<char>::empty(),
            r.working_dir@ == Seq::<char>::empty(),
            r.kind == AppKind::Raw,
            r.command@ == Seq::<char>::empty(),
            r.url is None,
            r.env_vars@.len() == 0,
            !r.auto_restart,
            r.start_order == 0,
    {
        AppDraft {
            name: String::new(),
            working_dir: String::new(),
            kind: AppKind::Raw,
            command: String::new(),
            url: None,
            env_vars: Vec::new(),
            auto_restart: false,
            start_order: 0,
        }
    }
}

impl View for AppDraft {
    type V = AppDraft;

    open spec fn view(&self) -> AppDraft {
        *self
    }
}

/// The configuration an application with id `id` gets from a draft.
pub open spec fn config_from_draft(id: u128, d: AppDraft) -> AppConfig {
    AppConfig {
        id,
        name: d.name,
        working_dir: d.working_dir,
        command: d.command,
        kind: d.kind,
        url: d.url,
        env_vars: d.env_vars,
        auto_restart: d.auto_restart,
        start_order: d.start_order,
    }
}

/// One application of the "start all" plan.
#[derive(Debug, Clone, Copy, PartialEq, Eq)]
pub struct StartStep {
    pub id: u128,
    pub order: i32,
    /// Wait before starting it: it opens a new start-order tier.
    pub pause_before: bool,
}

pub open spec fn step_pairs(s: Seq<StartStep>) -> Seq<(i32, u128)> {
    s.map_values(|x: StartStep| (x.order, x.id))
}

/// Holds of the entries with start order `k`.
pub open spec fn has_order(k: i32) -> spec_fn((i32, u128)) -> bool {
    |p: (i32, u128)| p.0 == k
}

/// Entries by non-decreasing start order.
pub open spec fn sorted_by_order(s: Seq<(i32, u128)>) -> bool {
    forall|i: int, j: int| 0 <= i < j < s.len() ==> #[trigger] s[i].0 <= #[trigger] s[j].0
}

/// Holds of the applications without a live supervisor.
pub open spec fn not_in(running: Set<u128>) -> spec_fn(AppConfigView) -> bool {
    |a: AppConfigView| !running.contains(a.id)
}

pub open spec fn order_and_id() -> spec_fn(AppConfigView) -> (i32, u128) {
    |a: AppConfigView| (a.start_order, a.id)
}

/// The applications "start all" launches: those without a live supervisor,
/// as (start order, id), in configuration order.
pub open spec fn start_candidates(v: EngineView) -> Seq<(i32, u128)> {
    v.config.filter(not_in(v.running)).map_values(order_and_id())
}

proof fn lemma_filter_none(s: Seq<(i32, u128)>, k: i32)
    requires
        forall|i: int| 0 <= i < s.len() ==> #[trigger] s[i].0 != k,
    ensures
        s.filter(has_order(k)) == Seq::<(i32, u128)>::empty(),
    decreases s.len(),
{
    reveal_with_fuel(Seq::filter, 1);
    if s.len() > 0 {
        assert forall|i: int| 0 <= i < s.drop_last().len() implies #[trigger] s.drop_last()[i].0 != k by {
            assert(s.drop_last()[i] == s[i]);
        }
        lemma_filter_none(s.drop_last(), k);
        assert(s[s.len() - 1].0 != k);
    }
}

proof fn lemma_filter_one(x: (i32, u128), k: i32)
    ensures
        seq![x].filter(has_order(k)) == (if x.0 == k { seq![x] } else { Seq::<(i32, u128)>::empty() }),
{
    reveal_with_fuel(Seq::filter, 2);
    assert(seq![x].drop_last() =~= Seq::<(i32, u128)>::empty());
    if x.0 == k {
        assert(Seq::<(i32, u128)>::empty().push(x) =~= seq![x]);
    }
}

proof fn lemma_insert_sorted(s: Seq<(i32, u128)>, p: int, x: (i32, u128))
    requires
        sorted_by_order(s),
        0 <= p <= s.len(),
        forall|i: int| 0 <= i < p ==> #[trigger] s[i].0 <= x.0,
        forall|i: int| p <= i < s.len() ==> #[trigger] s[i].0 > x.0,
    ensures
        sorted_by_order(s.insert(p, x)),
        forall|k: i32| #[trigger] s.insert(p, x).filter(has_order(k)) == (if k == x.0 {
            s.filter(has_order(k)).push(x)
        } else {
            s.filter(has_order(k))
        }),
{
    let t = s.insert(p, x);
    assert forall|i: int, j: int| 0 <= i < j < t.len() implies #[trigger] t[i].0 <= #[trigger] t[j].0 by {
        if i < p && j < p {
            assert(t[i] == s[i] && t[j] == s[j]);
        } else if i < p && j == p {
            assert(t[i] == s[i]);
        } else if i < p {
            assert(t[i] == s[i] && t[j] == s[j - 1]);
        } else if i == p {
            assert(t[j] == s[j - 1]);
        } else {
            assert(t[i] == s[i - 1] && t[j] == s[j - 1]);
        }
    }
    assert(t =~= s.take(p) + seq![x] + s.skip(p));
    assert(s =~= s.take(p) + s.skip(p));
    assert forall|k: i32| #[trigger] s.insert(p, x).filter(has_order(k)) == (if k == x.0 {
        s.filter(has_order(k)).push(x)
    } else {
        s.filter(has_order(k))
    }) by {
        let f = has_order(k);
        Seq::filter_distributes_over_add(s.take(p) + seq![x], s.skip(p), f);
        Seq::filter_distributes_over_add(s.take(p), seq![x], f);
        Seq::filter_distributes_over_add(s.take(p), s.skip(p), f);
        lemma_filter_one(x, k);
        if k == x.0 {
            assert forall|i: int| 0 <= i < s.skip(p).len() implies #[trigger] s.skip(p)[i].0 != k by {
                assert(s.skip(p)[i] == s[i + p]);
            }
            lemma_filter_none(s.skip(p), k);
            assert(s.take(p).filter(f) + Seq::<(i32, u128)>::empty() =~= s.take(p).filter(f));
            assert(s.take(p).filter(f) + seq![x] =~= s.take(p).filter(f).push(x));
        } else {
            assert(s.take(p).filter(f) + Seq::<(i32, u128)>::empty() =~= s.take(p).filter(f));
        }
    }
}

/// Run-time state of application `id`, a fresh one if it has none.
pub open spec fn runtime_of(v: EngineView, id: u128) -> RuntimeView {
    if v.runtimes.dom().contains(id) {
        v.runtimes[id]
    } else {
        fresh_runtime()
    }
}

impl Engine {
    /// Internal consistency: one run-time state per id, each with a bounded
    /// log buffer whose sequence numbers fit in 64 bits.
    pub closed spec fn wf(&self) -> bool {
        &&& distinct_ids(self.runtimes@)
        &&& all_wf(self.runtimes@)
    }

    /// In a well-formed engine every log buffer holds at most `MAX_LOG_LINES`
    /// lines and its sequence numbers fit in 64 bits.
    pub proof fn lemma_buffers_bounded(&self)
        requires
            self.wf(),
        ensures
            forall|id: u128| #[trigger] self@.runtimes.dom().contains(id) ==> self@.runtimes[id].logs.len() <= MAX_LOG_LINES
                && next_seq(self@.runtimes[id]) <= u64::MAX,
    {
        assert forall|id: u128| #[trigger] self@.runtimes.dom().contains(id) implies self@.runtimes[id].logs.len() <= MAX_LOG_LINES
            && next_seq(self@.runtimes[id]) <= u64::MAX by {
            let v = self.runtimes@;
            let i = choose|i: int| 0 <= i < v.len() && v[i].id == id;
            lemma_map_at(v, i);
            assert(v[i].wf());
        }
    }

    /// Whether another line can be numbered for application `id`.
    pub open spec fn can_log(v: EngineView, id: u128) -> bool {
        v.runtimes.dom().contains(id) ==> next_seq(v.runtimes[id]) < u64::MAX
    }

    fn runtime_index(&self, id: u128) -> (r: Option<usize>)
        requires
            self.wf(),
        ensures
            r matches Some(i) ==> i < self.runtimes@.len() && self.runtimes@[i as int].id == id
                && self@.runtimes.dom().contains(id) && self@.runtimes[id] == self.runtimes@[i as int].view(),
            r is None ==> !self@.runtimes.dom().contains(id),
    {
        let n = self.runtimes.len();
        for i in 0..n
            invariant
                n == self.runtimes.len(),
                self.wf(),
                forall|k: int| 0 <= k < i ==> #[trigger] self.runtimes@[k].id != id,
        {
            if self.runtimes[i].id == id {
                proof {
                    lemma_map_at(self.runtimes@, i as int);
                }
                return Some(i);
            }
        }
        None
    }

    fn replace_runtime(&mut self, i: usize, r: AppRuntime)
        requires
            old(self).wf(),
            i < old(self).runtimes@.len(),
            r.id == old(self).runtimes@[i as int].id,
            r.wf(),
        ensures
            final(self).wf(),
            final(self)@ == (EngineView { runtimes: old(self)@.runtimes.insert(r.id, r.view()), ..old(self)@ }),
            final(self).runtimes@.len() == old(self).runtimes@.len(),
    {
        let ghost before = self.runtimes@;
        self.runtimes.remove(i);
        self.runtimes.insert(i, r);
        assert(self.runtimes@ =~= before.update(i as int, r));
        proof {
            lemma_map_update(before, i as int, r);
        }
        assert(self@ =~= EngineView { runtimes: old(self)@.runtimes.insert(r.id, r.view()), ..old(self)@ });
    }

    fn take_runtime(&mut self, i: usize) -> (r: AppRuntime)
        requires
            old(self).wf(),
            i < old(self).runtimes@.len(),
        ensures
            r == old(self).runtimes@[i as int],
            r.wf(),
            final(self).runtimes@.len() == old(self).runtimes@.len(),
            final(self).runtimes@[i as int].id == r.id,
            final(self)@.runtimes == old(self)@.runtimes.insert(r.id, fresh_runtime()),
            final(self).config == old(self).config,
            final(self).running == old(self).running,
            final(self).revision == old(self).revision,
            final(self).wf(),
    {
        let placeholder = AppRuntime::new(self.runtimes[i].id);
        let ghost before = self.runtimes@;
        let r = self.runtimes.remove(i);
        self.runtimes.insert(i, placeholder);
        assert(self.runtimes@ =~= before.update(i as int, placeholder));
        proof {
            lemma_map_update(before, i as int, placeholder);
        }
        r
    }

    fn stop_tracking(&mut self, id: u128)
        ensures
            final(self)@ == (EngineView { running: old(self)@.running.remove(id), ..old(self)@ }),
            final(self).runtimes == old(self).runtimes,
    {
        let mut kept: Vec<u128> = Vec::new();
        let n = self.running.len();
        for i in 0..n
            invariant
                n == self.running.len(),
                self.running == old(self).running,
                forall|x: u128| #[trigger] kept@.contains(x) <==> (x != id && self.running@.take(i as int).contains(x)),
        {
            let x = self.running[i];
            let ghost kept_before = kept@;
            assert(self.running@.take(i + 1) =~= self.running@.take(i as int).push(x));
            if x != id {
                kept.push(x);
            }
            proof {
                lemma_contains_push(self.running@.take(i as int), x);
                lemma_contains_push(kept_before, x);
            }
        }
        assert(self.running@.take(n as int) =~= self.running@);
        self.running = kept;
        assert(self@.running =~= old(self)@.running.remove(id));
        assert(self@ =~= EngineView { running: old(self)@.running.remove(id), ..old(self)@ });
    }

    /// Whether application `id` has a live supervisor.
    pub fn is_running(&self, id: u128) -> (r: bool)
        ensures
            r == self@.running.contains(id),
    {
        let n = self.running.len();
        for i in 0..n
            invariant
                n == self.running.len(),
                forall|k: int| 0 <= k < i ==> self.running@[k] != id,
        {
            if self.running[i] == id {
                return true;
            }
        }
        false
    }

    /// Takes one event reported by a supervising thread: a log line goes to the
    /// application's buffer, a status replaces the current one (and a status
    /// other than building or running clears the health and ends the
    /// supervision), a health probe result is recorded.
    pub fn apply_event(&mut self, event: Event) -> (effect: EventEffect)
        requires
            old(self).wf(),
            event@ matches EventView::Log(id, _) ==> Self::can_log(old(self)@, id),
        ensures
            final(self).wf(),
            final(self)@ == spec_apply(old(self)@, event@),
            effect == spec_effect(old(self)@, event@),
    {
        match event {
            Event::Log(id, line) => {
                if let Some(i) = self.runtime_index(id) {
                    let ghost line_view = line@;
                    let mut rt = self.take_runtime(i);
                    assert(rt.view() == old(self)@.runtimes[id]);
                    rt.push_log(line);
                    self.replace_runtime(i, rt);
                    assert(self@.runtimes =~= old(self)@.runtimes.insert(id, pushed(old(self)@.runtimes[id], line_view)));
                    assert(self@ =~= spec_apply(old(self)@, EventView::Log(id, line_view)));
                }
                EventEffect::Nothing
            },
            Event::StatusChanged(id, status) => {
                let terminal = !status.is_active();
                let ghost sv = status@;
                if let Some(i) = self.runtime_index(id) {
                    let mut rt = self.take_runtime(i);
                    rt.status = status;
                    if terminal {
                        rt.healthy = None;
                    }
                    self.replace_runtime(i, rt);
                    assert(rt.view() =~= RuntimeView { status: sv, healthy: if terminal { None } else { old(self)@.runtimes[id].healthy }, ..old(self)@.runtimes[id] });
                }
                if terminal {
                    self.stop_tracking(id);
                    EventEffect::Ended(id)
                } else {
                    EventEffect::Nothing
                }
            },
            Event::HealthChanged(id, healthy) => {
                if let Some(i) = self.runtime_index(id) {
                    let mut rt = self.take_runtime(i);
                    rt.healthy = Some(healthy);
                    self.replace_runtime(i, rt);
                    assert(rt.view() =~= RuntimeView { healthy: Some(healthy), ..old(self)@.runtimes[id] });
                }
                EventEffect::Nothing
            },
            Event::StartRequested(id) => {
                if self.is_running(id) {
                    EventEffect::Nothing
                } else {
                    EventEffect::StartWanted(id)
                }
            },
        }
    }

    fn log_lines(&self, i: usize, from: usize) -> (r: Vec<String>)
        requires
            self.wf(),
            i < self.runtimes@.len(),
            from <= self.runtimes@[i as int].logs@.len(),
        ensures
            views(r@) == self.runtimes@[i as int].view().logs.skip(from as int),
    {
        let rt = &self.runtimes[i];
        let n = rt.logs.len();
        let mut r: Vec<String> = Vec::new();
        let mut k = from;
        let ghost all = rt.view().logs;
        while k < n
            invariant
                from <= k <= n,
                n == rt.logs@.len(),
                all == rt.view().logs,
                views(r@) == all.subrange(from as int, k as int),
            decreases n - k,
        {
            let line = rt.logs[k].clone();
            assert(line@ == all[k as int]);
            proof {
                lemma_views_push(r@, line);
            }
            r.push(line);
            assert(views(r@) =~= all.subrange(from as int, k + 1));
            k = k + 1;
        }
        assert(all.subrange(from as int, n as int) =~= all.skip(from as int));
        r
    }

    fn shown(&self, app: &AppConfig, logs_for: Option<(u128, u64)>) -> (r: AppView)
        requires
            self.wf(),
        ensures
            r@ == spec_shown(self@, app@, logs_for),
    {
        let idx = self.runtime_index(app.id);
        let ghost rt = runtime_of(self@, app.id);
        let (status, healthy) = match idx {
            Some(i) => (self.runtimes[i].status.duplicate(), self.runtimes[i].healthy),
            None => (AppStatus::Stopped, None),
        };
        assert(status@ == rt.status && healthy == rt.healthy);
        let error = match &status {
            AppStatus::Failed(m) => Some(m.clone()),
            _ => None,
        };
        let (logs, logs_base_seq, logs_replace) = match logs_for {
            Some((id, since)) => {
                if id == app.id {
                    match idx {
                        Some(i) => {
                            let base = self.runtimes[i].log_base_seq;
                            let len = self.runtimes[i].logs.len();
                            if since >= base {
                                let unseen = since - base;
                                let skip: usize = if unseen <= len as u64 { unseen as usize } else { len };
                                (self.log_lines(i, skip), since, false)
                            } else {
                                (self.log_lines(i, 0), base, true)
                            }
                        },
                        None => {
                            let empty: Vec<String> = Vec::new();
                            assert(views(empty@) =~= rt.logs.skip(0));
                            (empty, since, false)
                        },
                    }
                } else {
                    (Vec::new(), 0, false)
                }
            },
            None => (Vec::new(), 0, false),
        };
        let r = AppView {
            id: app.id,
            name: app.name.clone(),
            working_dir: app.working_dir.clone(),
            kind: app.kind,
            command: app.command.clone(),
            url: clone_opt_string(&app.url),
            env_vars: clone_pairs(&app.env_vars),
            auto_restart: app.auto_restart,
            start_order: app.start_order,
            status_label: status_label(&status),
            active: status.is_active(),
            error,
            logs,
            logs_base_seq,
            logs_replace,
            healthy,
        };
        assert(r@.logs =~= spec_shown(self@, app@, logs_for).logs);
        assert(r@ =~= spec_shown(self@, app@, logs_for));
        r
    }

    /// What every configured application looks like now, in configuration
    /// order. Only the application named in `logs_for` gets log lines: those
    /// a client that has seen the lines numbered below the given sequence
    /// number lacks, or the whole buffer as a replacement.
    pub fn list_apps(&self, logs_for: Option<(u128, u64)>) -> (r: Vec<AppView>)
        requires
            self.wf(),
        ensures
            r@.map_values(|a: AppView| a@) == self@.config.map_values(
                |app: AppConfigView| spec_shown(self@, app, logs_for),
            ),
    {
        let mut r: Vec<AppView> = Vec::new();
        let n = self.config.apps.len();
        for i in 0..n
            invariant
                n == self.config.apps.len(),
                self.wf(),
                r@.map_values(|a: AppView| a@) == self@.config.take(i as int).map_values(
                    |app: AppConfigView| spec_shown(self@, app, logs_for),
                ),
        {
            let app = &self.config.apps[i];
            let a = self.shown(app, logs_for);
            assert(self@.config[i as int] == app@);
            assert(a@ == spec_shown(self@, self@.config[i as int], logs_for));
            let ghost before = r@;
            r.push(a);
            assert(self@.config.take(i + 1) =~= self@.config.take(i as int).push(self@.config[i as int]));
            assert(r@.map_values(|a: AppView| a@) =~= before.map_values(|a: AppView| a@).push(a@));
            assert(r@.map_values(|a: AppView| a@) =~= self@.config.take(i + 1).map_values(
                |app: AppConfigView| spec_shown(self@, app, logs_for),
            ));
        }
        assert(self@.config.take(n as int) =~= self@.config);
        r
    }

    /// Adds an application made from `draft`, with a fresh random id, and a
    /// fresh run-time state for it; returns the id.
    pub fn add_app(&mut self, draft: AppDraft) -> (id: u128)
        requires
            old(self).wf(),
        ensures
            final(self).wf(),
            is_random_uuid(id),
            final(self)@.config == old(self)@.config.push(config_from_draft(id, draft)@),
            final(self)@.runtimes == old(self)@.runtimes.insert(id, fresh_runtime()),
            final(self)@.running == old(self)@.running,
            final(self)@.revision == old(self)@.revision,
    {
        let id = new_app_id();
        let app = AppConfig {
            id,
            name: draft.name,
            working_dir: draft.working_dir,
            command: draft.command,
            kind: draft.kind,
            url: draft.url,
            env_vars: draft.env_vars,
            auto_restart: draft.auto_restart,
            start_order: draft.start_order,
        };
        let rt = AppRuntime::new(id);
        match self.runtime_index(id) {
            Some(i) => {
                self.replace_runtime(i, rt);
            },
            None => {
                proof {
                    lemma_map_push(self.runtimes@, rt);
                }
                self.runtimes.push(rt);
            },
        }
        self.config.add(app);
        id
    }

    /// Replaces every field but the id of the first application with id `id`
    /// by the draft's; nothing happens when there is none.
    pub fn update_app(&mut self, id: u128, draft: AppDraft)
        requires
            old(self).wf(),
        ensures
            final(self).wf(),
            final(self)@.config == match first_with_id(old(self)@.config, id) {
                Some(i) => old(self)@.config.update(i, config_from_draft(id, draft)@),
                None => old(self)@.config,
            },
            final(self)@.runtimes == old(self)@.runtimes,
            final(self)@.running == old(self)@.running,
            final(self)@.revision == old(self)@.revision,
    {
        let ghost d = draft;
        let apply = move |app: AppConfig| -> (r: AppConfig)
            ensures
                r@ == config_from_draft(app.id, d)@,
            {
                AppConfig {
                    id: app.id,
                    name: draft.name,
                    working_dir: draft.working_dir,
                    command: draft.command,
                    kind: draft.kind,
                    url: draft.url,
                    env_vars: draft.env_vars,
                    auto_restart: draft.auto_restart,
                    start_order: draft.start_order,
                }
            };
        self.config.update(id, apply);
        proof {
            crate::app_config::lemma_first_with_id_found(old(self)@.config, id);
            if first_with_id(old(self)@.config, id) is Some {
                let i = first_with_id(old(self)@.config, id)->0;
                let r = choose|r: AppConfig| #[trigger] apply.ensures((old(self).config.apps@[i],), r)
                    && self@.config == old(self)@.config.update(i, r@);
                assert(old(self)@.config[i] == old(self).config.apps@[i]@);
                assert(r@ == config_from_draft(id, d)@);
            }
        }
    }

    /// Drops the application `id`: its configuration, its run-time state and
    /// its supervision record. (A live process must be stopped by the caller first.)
    pub fn remove_app(&mut self, id: u128)
        requires
            old(self).wf(),
        ensures
            final(self).wf(),
            final(self)@.config == old(self)@.config.filter(other_id(id)),
            final(self)@.runtimes == old(self)@.runtimes.remove(id),
            final(self)@.running == old(self)@.running.remove(id),
            final(self)@.revision == old(self)@.revision,
    {
        self.config.remove(id);
        match self.runtime_index(id) {
            Some(i) => {
                proof {
                    lemma_map_remove(self.runtimes@, i as int);
                }
                self.runtimes.remove(i);
            },
            None => {
                assert(self@.runtimes =~= old(self)@.runtimes.remove(id));
            },
        }
        self.stop_tracking(id);
    }

    /// Empties the log buffer of application `id`; the sequence numbers of the
    /// cleared lines stay used, so a client that had not seen them is sent a
    /// replacement.
    pub fn clear_logs(&mut self, id: u128)
        requires
            old(self).wf(),
        ensures
            final(self).wf(),
            final(self)@ == (if old(self)@.runtimes.dom().contains(id) {
                EngineView { runtimes: old(self)@.runtimes.insert(id, cleared(old(self)@.runtimes[id])), ..old(self)@ }
            } else {
                old(self)@
            }),
    {
        if let Some(i) = self.runtime_index(id) {
            let mut rt = self.take_runtime(i);
            rt.clear_logs();
            self.replace_runtime(i, rt);
            assert(self@ =~= EngineView { runtimes: old(self)@.runtimes.insert(id, cleared(old(self)@.runtimes[id])), ..old(self)@ });
        }
    }

    /// The buffered lines of application `id`, one per line, for export;
    /// `None` when it has no run-time state.
    pub fn log_text(&self, id: u128) -> (r: Option<String>)
        requires
            self.wf(),
        ensures
            self@.runtimes.dom().contains(id) ==> (r matches Some(t) && t@ == join(self@.runtimes[id].logs, "\n"@)),
            !self@.runtimes.dom().contains(id) ==> r is None,
    {
        match self.runtime_index(id) {
            Some(i) => {
                let lines = self.log_lines(i, 0);
                assert(self.runtimes@[i as int].view().logs.skip(0) =~= self.runtimes@[i as int].view().logs);
                Some(join_strings(&lines, "\n"))
            },
            None => None,
        }
    }

    /// The configuration of the first application with id `id`, to launch it.
    pub fn launch_config(&self, id: u128) -> (r: Option<AppConfig>)
        ensures
            match first_with_id(self@.config, id) {
                Some(i) => r matches Some(c) && c@ == self@.config[i],
                None => r is None,
            },
    {
        let n = self.config.apps.len();
        for i in 0..n
            invariant
                n == self.config.apps.len(),
                forall|k: int| 0 <= k < i ==> #[trigger] self@.config[k].id != id,
        {
            assert(self@.config[i as int] == self.config.apps@[i as int]@);
            if self.config.apps[i].id == id {
                proof {
                    crate::app_config::lemma_first_with_id(self@.config, id, i as int);
                }
                return Some(self.config.apps[i].duplicate());
            }
        }
        proof {
            if exists|k: int| 0 <= k < self@.config.len() && #[trigger] self@.config[k].id == id {
                let k = choose|k: int| 0 <= k < self@.config.len() && #[trigger] self@.config[k].id == id;
                assert(self@.config[k].id != id);
            }
        }
        None
    }

    /// Records the outcome of launching `config`: with its working directory
    /// present the application now has a live supervisor; without it the
    /// application fails with a message naming the directory.
    pub fn record_launch(&mut self, config: &AppConfig, dir_exists: bool)
        requires
            old(self).wf(),
        ensures
            final(self).wf(),
            dir_exists ==> final(self)@ == (EngineView { running: old(self)@.running.insert(config.id), ..old(self)@ }),
            !dir_exists ==> final(self)@ == (if old(self)@.runtimes.dom().contains(config.id) {
                EngineView {
                    runtimes: old(self)@.runtimes.insert(config.id, RuntimeView {
                        status: StatusView::Failed("dossier introuvable: "@ + config.working_dir@),
                        ..old(self)@.runtimes[config.id]
                    }),
                    ..old(self)@
                }
            } else {
                old(self)@
            }),
    {
        let id = config.id;
        if dir_exists {
            if !self.is_running(id) {
                proof {
                    lemma_contains_push(self.running@, id);
                }
                self.running.push(id);
            }
            assert(self@ =~= EngineView { running: old(self)@.running.insert(id), ..old(self)@ });
        } else {
            if let Some(i) = self.runtime_index(id) {
                let mut message = "dossier introuvable: ".to_owned();
                message.append(config.working_dir.as_str());
                let mut rt = self.take_runtime(i);
                rt.status = AppStatus::Failed(message);
                self.replace_runtime(i, rt);
                assert(self@ =~= EngineView {
                    runtimes: old(self)@.runtimes.insert(id, RuntimeView {
                        status: StatusView::Failed("dossier introuvable: "@ + config.working_dir@),
                        ..old(self)@.runtimes[id]
                    }),
                    ..old(self)@
                });
            }
        }
    }

    /// The applications with a live supervisor.
    pub fn running_ids(&self) -> (r: Vec<u128>)
        ensures
            forall|x: u128| #[trigger] r@.contains(x) <==> self@.running.contains(x),
    {
        let r = self.running.clone();
        assert(r@ =~= self.running@);
        r
    }

    fn candidates(&self) -> (r: Vec<(i32, u128)>)
        ensures
            r@ == start_candidates(self@),
    {
        let ghost pred = not_in(self@.running);
        let ghost f = order_and_id();
        let mut out: Vec<(i32, u128)> = Vec::new();
        let n = self.config.apps.len();
        proof {
            reveal_with_fuel(Seq::filter, 1);
            assert(self@.config.take(0) =~= Seq::<AppConfigView>::empty());
        }
        for i in 0..n
            invariant
                n == self.config.apps.len(),
                pred == not_in(self@.running),
                f == order_and_id(),
                out@ == self@.config.take(i as int).filter(pred).map_values(f),
        {
            let ghost before = out@;
            let app = &self.config.apps[i];
            let ghost a = self@.config[i as int];
            assert(a == app@);
            let ghost pre = self@.config.take(i as int).filter(pred);
            if !self.is_running(app.id) {
                out.push((app.start_order, app.id));
                assert(self@.config.take(i + 1).filter(pred) == pre.push(a)) by {
                    reveal_with_fuel(Seq::filter, 1);
                    assert(self@.config.take(i + 1).drop_last() =~= self@.config.take(i as int));
                    assert(self@.config.take(i + 1).last() == a);
                }
                assert(pre.push(a).map_values(f) =~= pre.map_values(f).push(f(a)));
            } else {
                assert(self@.config.take(i + 1).filter(pred) == pre) by {
                    reveal_with_fuel(Seq::filter, 1);
                    assert(self@.config.take(i + 1).drop_last() =~= self@.config.take(i as int));
                    assert(self@.config.take(i + 1).last() == a);
                }
            }
        }
        assert(self@.config.take(n as int) =~= self@.config);
        out
    }

    /// The plan of "start all": the applications without a live supervisor,
    /// by ascending start order, those of equal order in configuration order,
    /// with a pause before each new start order.
    pub fn start_all(&self) -> (plan: Vec<StartStep>)
        ensures
            step_pairs(plan@).len() == start_candidates(self@).len(),
            sorted_by_order(step_pairs(plan@)),
            forall|k: i32| #[trigger] step_pairs(plan@).filter(has_order(k)) == start_candidates(self@).filter(has_order(k)),
            forall|i: int| 0 <= i < plan@.len() ==> #[trigger] plan@[i].pause_before == (i > 0 && plan@[i - 1].order != plan@[i].order),
    {
        let cands = self.candidates();
        let n = cands.len();
        let mut sorted: Vec<(i32, u128)> = Vec::new();
        proof {
            reveal_with_fuel(Seq::filter, 1);
        }
        assert forall|k: i32| #[trigger] sorted@.filter(has_order(k)) == cands@.take(0).filter(has_order(k)) by {
            reveal_with_fuel(Seq::filter, 1);
            assert(cands@.take(0) =~= Seq::<(i32, u128)>::empty());
        }
        for i in 0..n
            invariant
                n == cands.len(),
                sorted@.len() == i,
                sorted_by_order(sorted@),
                forall|k: i32| #[trigger] sorted@.filter(has_order(k)) == cands@.take(i as int).filter(has_order(k)),
        {
            let x = cands[i];
            let m = sorted.len();
            let mut p: usize = 0;
            while p < m && sorted[p].0 <= x.0
                invariant
                    p <= m == sorted@.len(),
                    forall|j: int| 0 <= j < p ==> #[trigger] sorted@[j].0 <= x.0,
                decreases m - p,
            {
                p = p + 1;
            }
            proof {
                assert forall|j: int| p <= j < sorted@.len() implies #[trigger] sorted@[j].0 > x.0 by {
                    assert(sorted@[p as int].0 > x.0);
                    if j > p {
                        assert(sorted@[p as int].0 <= sorted@[j].0);
                    }
                }
                lemma_insert_sorted(sorted@, p as int, x);
                assert forall|k: i32| #[trigger] cands@.take(i + 1).filter(has_order(k)) == (if k == x.0 {
                    cands@.take(i as int).filter(has_order(k)).push(x)
                } else {
                    cands@.take(i as int).filter(has_order(k))
                }) by {
                    reveal_with_fuel(Seq::filter, 1);
                    assert(cands@.take(i + 1).drop_last() =~= cands@.take(i as int));
                    assert(cands@.take(i + 1).last() == x);
                }
            }
            sorted.insert(p, x);
        }
        assert(cands@.take(n as int) =~= cands@);
        let mut plan: Vec<StartStep> = Vec::new();
        for i in 0..n
            invariant
                n == sorted@.len(),
                plan@.len() == i,
                forall|j: int| 0 <= j < i ==> #[trigger] plan@[j].order == sorted@[j].0 && plan@[j].id == sorted@[j].1,
                forall|j: int| 0 <= j < i ==> #[trigger] plan@[j].pause_before == (j > 0 && sorted@[j - 1].0 != sorted@[j].0),
        {
            let pause_before = i > 0 && sorted[i - 1].0 != sorted[i].0;
            plan.push(StartStep { id: sorted[i].1, order: sorted[i].0, pause_before });
        }
        assert(step_pairs(plan@) =~= sorted@);
        plan
    }

    /// The configured applications.
    pub fn config(&self) -> (r: &AppConfigList)
        ensures
            r@ == self@.config,
    {
        &self.config
    }

    /// Merges an imported list into the configuration (see
    /// `AppConfigList::merge_import`) and gives every application that has no
    /// run-time state a fresh one.
    pub fn import_apps(&mut self, incoming: AppConfigList) -> (summary: ImportSummary)
        requires
            old(self).wf(),
        ensures
            final(self).wf(),
            exists|fresh: Seq<u128>|
                #![trigger merge_all((old(self)@.config, empty_summary()), incoming@, fresh)]
                fresh.len() == incoming@.len()
                && (forall|k: int| 0 <= k < fresh.len() ==> is_random_uuid(#[trigger] fresh[k]))
                && (final(self)@.config, summary@) == merge_all((old(self)@.config, empty_summary()), incoming@, fresh),
            forall|id: u128| #[trigger] final(self)@.runtimes.dom().contains(id) <==> (old(self)@.runtimes.dom().contains(id)
                || has_id_before(final(self)@.config, final(self)@.config.len() as int, id)),
            forall|id: u128| old(self)@.runtimes.dom().contains(id) ==> #[trigger] final(self)@.runtimes[id] == old(self)@.runtimes[id],
            forall|id: u128| !old(self)@.runtimes.dom().contains(id) && #[trigger] final(self)@.runtimes.dom().contains(id)
                ==> final(self)@.runtimes[id] == fresh_runtime(),
            final(self)@.running == old(self)@.running,
            final(self)@.revision == old(self)@.revision,
    {
        let summary = self.config.merge_import(incoming);
        let n = self.config.apps.len();
        let ghost mid = self@.runtimes;
        let ghost merged = self@.config;
        for i in 0..n
            invariant
                n == self.config.apps.len(),
                self.wf(),
                self@.config == merged,
                self@.running == old(self)@.running,
                self@.revision == old(self)@.revision,
                forall|id: u128| #[trigger] self@.runtimes.dom().contains(id) <==> (mid.contains_key(id)
                    || has_id_before(self@.config, i as int, id)),
                forall|id: u128| mid.contains_key(id) ==> #[trigger] self@.runtimes[id] == mid[id],
                forall|id: u128| !mid.contains_key(id) && #[trigger] self@.runtimes.dom().contains(id)
                    ==> self@.runtimes[id] == fresh_runtime(),
        {
            let id = self.config.apps[i].id;
            assert(self@.config[i as int].id == id);
            if self.runtime_index(id).is_none() {
                let r = AppRuntime::new(id);
                proof {
                    lemma_map_push(self.runtimes@, r);
                }
                self.runtimes.push(r);
            }
            assert forall|x: u128| #[trigger] has_id_before(self@.config, i + 1, x)
                == (has_id_before(self@.config, i as int, x) || x == id) by {
                if has_id_before(self@.config, i + 1, x) {
                    let k = choose|k: int| 0 <= k < i + 1 && self@.config[k].id == x;
                    if k < i {
                        assert(has_id_before(self@.config, i as int, x));
                    }
                }
                if x == id {
                    assert(self@.config[i as int].id == x);
                }
            }
        }
        summary
    }

    /// Whether application `id` can take another log line.
    pub fn accepts_log(&self, id: u128) -> (r: bool)
        requires
            self.wf(),
        ensures
            r == Self::can_log(self@, id),
    {
        match self.runtime_index(id) {
            Some(i) => {
                let rt = &self.runtimes[i];
                proof {
                    assert(rt.wf());
                }
                (rt.log_base_seq as u128) + (rt.logs.len() as u128) < (u64::MAX as u128)
            },
            None => true,
        }
    }

    /// The revision counter.
    pub fn revision(&self) -> (r: u64)
        ensures
            r == self@.revision,
    {
        self.revision
    }

    /// Closes a round of `apply_event` calls: the revision moves when at least
    /// one event was taken, and only then.
    pub fn finish_drain(&mut self, drained: usize)
        requires
            drained > 0 ==> old(self)@.revision < u64::MAX,
        ensures
            final(self)@ == (EngineView {
                revision: if drained > 0 { old(self)@.revision + 1 } else { old(self)@.revision },
                ..old(self)@
            }),
            old(self).wf() ==> final(self).wf(),
    {
        if drained > 0 {
            self.revision = self.revision + 1;
        }
        assert(self@ =~= EngineView {
            revision: if drained > 0 { old(self)@.revision + 1 } else { old(self)@.revision },
            ..old(self)@
        });
    }

    /// Records that something shown changed (events drained, usage moved).
    pub fn bump_revision(&mut self)
        requires
            old(self)@.revision < u64::MAX,
        ensures
            final(self)@ == (EngineView { revision: old(self)@.revision + 1, ..old(self)@ }),
            old(self).wf() ==> final(self).wf(),
    {
        self.revision = self.revision + 1;
        assert(self@ =~= EngineView { revision: old(self)@.revision + 1, ..old(self)@ });
    }

    /// An engine over `config`: a fresh run-time state for every configured id,
    /// nothing running, revision 0.
    pub fn new(config: AppConfigList) -> (e: Engine)
        ensures
            e.wf(),
            e@.config == config@,
            e@.runtimes == Map::new(
                |id: u128| exists|i: int| 0 <= i < config@.len() && config@[i].id == id,
                |id: u128| fresh_runtime(),
            ),
            e@.running == Set::<u128>::empty(),
            e@.revision == 0,
    {
        let mut e = Engine { config, runtimes: Vec::new(), running: Vec::new(), revision: 0 };
        let n = e.config.apps.len();
        assert(runtime_map(e.runtimes@) =~= Map::<u128, RuntimeView>::empty());
        for i in 0..n
            invariant
                n == e.config.apps.len(),
                e.config@ == config@,
                e.wf(),
                e.running@ == Seq::<u128>::empty(),
                e.revision == 0,
                runtime_map(e.runtimes@) == Map::new(
                    |id: u128| has_id_before(e.config@, i as int, id),
                    |id: u128| fresh_runtime(),
                ),
        {
            let id = e.config.apps[i].id;
            assert(e.config@[i as int].id == id);
            let ghost before = runtime_map(e.runtimes@);
            match e.runtime_index(id) {
                Some(_) => {},
                None => {
                    let r = AppRuntime::new(id);
                    proof {
                        lemma_map_push(e.runtimes@, r);
                    }
                    e.runtimes.push(r);
                },
            }
            assert forall|x: u128| #[trigger] has_id_before(e.config@, i + 1, x)
                == (has_id_before(e.config@, i as int, x) || x == id) by {
                if has_id_before(e.config@, i + 1, x) {
                    let k = choose|k: int| 0 <= k < i + 1 && e.config@[k].id == x;
                    if k < i {
                        assert(has_id_before(e.config@, i as int, x));
                    }
                }
                if x == id {
                    assert(e.config@[i as int].id == x);
                }
            }
            assert(runtime_map(e.runtimes@) =~= Map::new(
                |id: u128| has_id_before(e.config@, i + 1, id),
                |id: u128| fresh_runtime(),
            ));
        }
        assert(e@.running =~= Set::<u128>::empty());
        assert(e@.runtimes =~= Map::new(
            |id: u128| exists|i: int| 0 <= i < config@.len() && config@[i].id == id,
            |id: u128| fresh_runtime(),
        )) by {
            assert forall|x: u128| has_id_before(e.config@, n as int, x) == (exists|i: int| 0 <= i < config@.len() && config@[i].id == x) by {}
        }
        e
    }
}

} // verus!
