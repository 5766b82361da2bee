//! Properties that relate several operations of the library.

use vstd::prelude::*;
use crate::app_config::{
    configs_view, empty_summary, merge_all, merge_step, AppConfigList, AppConfigView, ImportSummaryView,
    other_id,
};
use crate::engine::{
    has_order, start_candidates,
    cleared, delivered, fresh_runtime, next_seq, pushed, spec_apply, spec_effect, EngineView, EventEffect,
    RuntimeView, MAX_LOG_LINES,
};
use crate::frontend::{synced, MAX_DISPLAYED_LOG_LINES};
use crate::log_stream::EventView;
use crate::app_config::{export_with, id_among, keyed_merge_step, name_key};
use crate::engine::{runtime_of, spec_shown, spec_status_label, config_from_draft, AppDraft};
use crate::frontend::spec_status_css_class;
use crate::text::{is_ws, lemma_split_ws_words, split_ws, trim};
use crate::process_manager::{
    is_active_status, quote_body, read_shell_word, resolves_to, shell_quoted, spec_commands, StatusView,
};
use crate::app_config::AppKind;

verus! {

/// Appending a line numbers it with the next sequence number, and clearing
/// keeps the numbering going: no sequence number is ever used twice.
pub proof fn law_sequence_numbers_advance(rt: RuntimeView, line: Seq<char>)
    requires
        rt.logs.len() <= MAX_LOG_LINES,
    ensures
        next_seq(pushed(rt, line)) == next_seq(rt) + 1,
        pushed(rt, line).logs.len() <= MAX_LOG_LINES,
        pushed(rt, line).logs.last() == line,
        next_seq(cleared(rt)) == next_seq(rt),
        cleared(rt).logs.len() == 0,
{
}

/// A log line reported for an application joins the end of its buffer; when
/// the buffer was full the oldest line is dropped, so it keeps the last
/// `MAX_LOG_LINES` lines at most, and the sequence number of its oldest line
/// moves by the number of lines dropped: the next sequence number grows by one.
pub proof fn law_log_line_appends_and_evicts(v: EngineView, id: u128, line: Seq<char>)
    requires
        v.runtimes.dom().contains(id),
        v.runtimes[id].logs.len() <= MAX_LOG_LINES,
    ensures
        ({
            let o = v.runtimes[id];
            let n = spec_apply(v, EventView::Log(id, line)).runtimes[id];
            let kept: int = if o.logs.len() + 1 <= MAX_LOG_LINES { (o.logs.len() + 1) as int } else { MAX_LOG_LINES as int };
            &&& n.logs.len() == kept
            &&& n.logs == o.logs.push(line).skip(o.logs.len() + 1 - kept)
            &&& n.base == o.base + (o.logs.len() + 1 - kept)
            &&& next_seq(n) == next_seq(o) + 1
            &&& n.status == o.status && n.healthy == o.healthy
        }),
        forall|other: u128| other != id ==> #[trigger] spec_apply(v, EventView::Log(id, line)).runtimes.dom().contains(other)
            == v.runtimes.dom().contains(other)
            && spec_apply(v, EventView::Log(id, line)).runtimes[other] == v.runtimes[other],
{
}

/// A client that has seen every line gets exactly the line appended next, as
/// an addition, not a replacement.
pub proof fn law_caught_up_client_gets_the_new_line(rt: RuntimeView, line: Seq<char>)
    requires
        rt.logs.len() <= MAX_LOG_LINES,
    ensures
        delivered(pushed(rt, line), next_seq(rt)) == (seq![line], next_seq(rt), false),
{
    let p = pushed(rt, line);
    let all = rt.logs.push(line);
    let unseen = next_seq(rt) - p.base;
    assert(unseen == p.logs.len() - 1);
    assert(p.logs.skip(unseen as int) =~= seq![line]);
}

/// A client that has seen every line gets nothing, and no replacement, until a
/// line is appended.
pub proof fn law_caught_up_client_gets_nothing_new(rt: RuntimeView)
    ensures
        delivered(rt, next_seq(rt)) == (Seq::<Seq<char>>::empty(), next_seq(rt), false),
{
    assert(rt.logs.skip(rt.logs.len() as int) =~= Seq::<Seq<char>>::empty());
}

/// After the buffer is cleared, a client that had seen every line gets an
/// empty addition, while a client that had missed lines is told to replace
/// what it holds.
pub proof fn law_clear_and_clients(rt: RuntimeView, since: nat)
    requires
        since <= next_seq(rt),
    ensures
        since == next_seq(rt) ==> delivered(cleared(rt), since) == (Seq::<Seq<char>>::empty(), since, false),
        since < next_seq(rt) ==> delivered(cleared(rt), since) == (Seq::<Seq<char>>::empty(), next_seq(rt), true),
{
    assert(Seq::<Seq<char>>::empty().skip(0) =~= Seq::<Seq<char>>::empty());
}

/// A client that missed lines which have since been dropped from the buffer
/// is sent the whole buffer as a replacement.
pub proof fn law_stale_client_gets_a_replacement(rt: RuntimeView, since: nat)
    requires
        since < rt.base,
    ensures
        delivered(rt, since) == (rt.logs, rt.base, true),
{
}

/// A client that mirrors the buffer and has seen every line still mirrors it
/// after the next line is appended and delivered; any client mirrors the
/// buffer after a replacement. The mirror stays within the display limit.
pub proof fn law_client_mirrors_the_buffer(rt: RuntimeView, client: Seq<Seq<char>>, line: Seq<char>, since: nat)
    requires
        rt.logs.len() <= MAX_LOG_LINES,
        client == rt.logs,
    ensures
        ({
            let (lines, _, replace) = delivered(pushed(rt, line), next_seq(rt));
            synced(client, lines, replace) == pushed(rt, line).logs
        }),
        ({
            let (lines, _, replace) = delivered(rt, since);
            replace ==> synced(client, lines, replace) == rt.logs
        }),
        synced(client, seq![line], false).len() <= MAX_DISPLAYED_LOG_LINES,
{
    law_caught_up_client_gets_the_new_line(rt, line);
    let all = rt.logs.push(line);
    assert(client + seq![line] =~= all);
}

/// Applying an event leaves the revision and the configuration alone: the
/// revision moves once per drained batch of events (`finish_drain`) and when
/// resource usage changed (`bump_revision`).
pub proof fn law_events_keep_the_revision(v: EngineView, e: EventView)
    ensures
        spec_apply(v, e).revision == v.revision,
        spec_apply(v, e).config == v.config,
{
}

/// A status other than building or running ends the supervision of the
/// application, which can then be started again.
pub proof fn law_terminal_status_ends_supervision(v: EngineView, id: u128, s: StatusView)
    requires
        !is_active_status(s),
    ensures
        !spec_apply(v, EventView::StatusChanged(id, s)).running.contains(id),
        spec_effect(v, EventView::StatusChanged(id, s)) == EventEffect::Ended(id),
        spec_effect(spec_apply(v, EventView::StatusChanged(id, s)), EventView::StartRequested(id))
            == EventEffect::StartWanted(id),
{
}

/// A start request for an application that already has a live supervisor
/// changes nothing and starts nothing.
pub proof fn law_start_request_is_idempotent(v: EngineView, id: u128)
    requires
        v.running.contains(id),
    ensures
        spec_apply(v, EventView::StartRequested(id)) == v,
        spec_effect(v, EventView::StartRequested(id)) == EventEffect::Nothing,
{
}

/// When no stop was asked for, a run counts as a crash exactly when the
/// status it leaves is a failure.
pub proof fn law_crash_iff_failed(result: std::io::Result<i32>, s: StatusView)
    requires
        resolves_to(result, false, s),
    ensures
        !(result matches Ok(0)) <==> s is Failed,
{
}

/// A stop that was asked for always leaves a process that exited stopped,
/// whatever its exit code.
pub proof fn law_requested_stop_is_a_clean_stop(code: i32, s: StatusView)
    requires
        resolves_to(Ok(code), true, s),
    ensures
        s == StatusView::Stopped,
{
}

/// Cargo applications build and then run; every other kind runs one command.
pub proof fn law_command_counts(kind: AppKind, command: Seq<char>)
    ensures
        kind == AppKind::Cargo ==> spec_commands(kind, command).len() == 2,
        kind != AppKind::Cargo ==> spec_commands(kind, command).len() == 1,
{
}

/// Merging an import accounts for every imported application exactly once
/// (added, replaced or refused), grows the list by the additions only, and
/// keeps the id of every application already there.
pub proof fn law_merge_accounts_for_everything(
    state: (Seq<AppConfigView>, ImportSummaryView),
    incoming: Seq<AppConfigView>,
    fresh: Seq<u128>,
)
    ensures
        ({
            let (apps, summary) = merge_all(state, incoming, fresh);
            &&& summary.to_add.len() + summary.to_replace.len() + summary.invalid
                == state.1.to_add.len() + state.1.to_replace.len() + state.1.invalid + incoming.len()
            &&& summary.to_add.len() >= state.1.to_add.len()
            &&& apps.len() == state.0.len() + (summary.to_add.len() - state.1.to_add.len())
            &&& forall|i: int| 0 <= i < state.0.len() ==> #[trigger] apps[i].id == state.0[i].id
        }),
    decreases incoming.len(),
{
    if incoming.len() > 0 {
        law_merge_accounts_for_everything(state, incoming.drop_last(), fresh.drop_last());
        let mid = merge_all(state, incoming.drop_last(), fresh.drop_last());
        let app = incoming.last();
        let res = merge_all(state, incoming, fresh);
        assert(res == merge_step(mid, app, fresh[incoming.len() - 1]));
        let t = crate::text::trim(app.name);
        if t.len() > 0 {
            crate::app_config::lemma_first_with_key_found(mid.0, crate::text::lowercase(t));
            match crate::app_config::first_with_key(mid.0, crate::text::lowercase(t)) {
                Some(i) => {
                    assert(res.0 == mid.0.update(i, AppConfigView { id: mid.0[i].id, name: t, ..app }));
                    assert forall|j: int| 0 <= j < state.0.len() implies #[trigger] res.0[j].id == state.0[j].id by {
                        assert(mid.0[j].id == state.0[j].id);
                    }
                },
                None => {
                    assert forall|j: int| 0 <= j < state.0.len() implies #[trigger] res.0[j].id == state.0[j].id by {
                        assert(mid.0[j].id == state.0[j].id);
                    }
                },
            }
        }
    }
}

/// Two listings that agree tier by tier hold the same entries.
pub proof fn law_same_tiers_same_entries(plan: Seq<(i32, u128)>, candidates: Seq<(i32, u128)>)
    requires
        forall|k: i32| #[trigger] plan.filter(has_order(k)) == candidates.filter(has_order(k)),
    ensures
        forall|x: (i32, u128)| #[trigger] plan.contains(x) <==> candidates.contains(x),
{
    assert forall|x: (i32, u128)| #[trigger] plan.contains(x) <==> candidates.contains(x) by {
        let f = has_order(x.0);
        assert(plan.filter(f) == candidates.filter(f));
        if plan.contains(x) {
            let i = choose|i: int| 0 <= i < plan.len() && plan[i] == x;
            plan.lemma_filter_contains(f, i);
            candidates.lemma_filter_contains_rev(f, x);
        }
        if candidates.contains(x) {
            let i = choose|i: int| 0 <= i < candidates.len() && candidates[i] == x;
            candidates.lemma_filter_contains(f, i);
            plan.lemma_filter_contains_rev(f, x);
        }
    }
}

/// "Start all" never plans an application that already has a live
/// supervisor, and plans every other configured application.
pub proof fn law_start_plan_covers_exactly_the_idle_apps(v: EngineView, plan: Seq<(i32, u128)>)
    requires
        forall|k: i32| #[trigger] plan.filter(has_order(k)) == start_candidates(v).filter(has_order(k)),
    ensures
        forall|x: (i32, u128)| #[trigger] plan.contains(x) ==> !v.running.contains(x.1),
        forall|i: int| 0 <= i < v.config.len() && !v.running.contains(v.config[i].id)
            ==> plan.contains((#[trigger] v.config[i].start_order, v.config[i].id)),
{
    law_same_tiers_same_entries(plan, start_candidates(v));
    let pred = crate::engine::not_in(v.running);
    let f = crate::engine::order_and_id();
    let filtered = v.config.filter(pred);
    assert forall|x: (i32, u128)| #[trigger] plan.contains(x) implies !v.running.contains(x.1) by {
        assert(start_candidates(v).contains(x));
        let j = choose|j: int| 0 <= j < start_candidates(v).len() && start_candidates(v)[j] == x;
        assert(start_candidates(v)[j] == f(filtered[j]));
        v.config.lemma_filter_pred(pred, j);
    }
    assert forall|i: int| 0 <= i < v.config.len() && !v.running.contains(v.config[i].id)
        implies plan.contains((#[trigger] v.config[i].start_order, v.config[i].id)) by {
        v.config.lemma_filter_contains(pred, i);
        let j = choose|j: int| 0 <= j < filtered.len() && filtered[j] == v.config[i];
        assert(start_candidates(v)[j] == (v.config[i].start_order, v.config[i].id));
        assert(start_candidates(v).contains((v.config[i].start_order, v.config[i].id)));
    }
}

/// Adding an application whose id the list does not hold and then removing
/// that id gives the list back.
pub proof fn law_add_then_remove(list: Seq<AppConfigView>, app: AppConfigView)
    requires
        forall|i: int| 0 <= i < list.len() ==> #[trigger] list[i].id != app.id,
    ensures
        list.push(app).filter(other_id(app.id)) == list,
{
    lemma_filter_keeps_all(list, app.id);
    reveal_with_fuel(Seq::filter, 1);
    assert(list.push(app).drop_last() =~= list);
}

proof fn lemma_filter_keeps_all(list: Seq<AppConfigView>, id: u128)
    requires
        forall|i: int| 0 <= i < list.len() ==> #[trigger] list[i].id != id,
    ensures
        list.filter(other_id(id)) == list,
    decreases list.len(),
{
    reveal_with_fuel(Seq::filter, 1);
    if list.len() > 0 {
        assert forall|i: int| 0 <= i < list.drop_last().len() implies #[trigger] list.drop_last()[i].id != id by {
            assert(list.drop_last()[i] == list[i]);
        }
        lemma_filter_keeps_all(list.drop_last(), id);
        assert(list.drop_last().push(list.last()) =~= list);
    }
}

proof fn lemma_quote_body_concat(a: Seq<char>, b: Seq<char>)
    ensures
        quote_body(a + b) == quote_body(a) + quote_body(b),
    decreases b.len(),
{
    if b.len() == 0 {
        assert(a + b =~= a);
        assert(quote_body(a) + quote_body(b) =~= quote_body(a));
    } else {
        assert((a + b).drop_last() =~= a + b.drop_last());
        assert((a + b).last() == b.last());
        lemma_quote_body_concat(a, b.drop_last());
        let tail = if b.last() == '\'' { seq!['\'', '\\', '\'', '\''] } else { seq![b.last()] };
        assert(quote_body(a + b) == quote_body(a + b.drop_last()) + tail);
        assert(quote_body(b) == quote_body(b.drop_last()) + tail);
        assert(quote_body(a + b) =~= quote_body(a) + quote_body(b));
    }
}

proof fn lemma_read_quote_body(v: Seq<char>, r: Seq<char>)
    ensures
        read_shell_word(quote_body(v) + r, true) == match read_shell_word(r, true) {
            Some(w) => Some(v + w),
            None => None,
        },
    decreases v.len(),
{
    if v.len() == 0 {
        assert(quote_body(v) + r =~= r);
        match read_shell_word(r, true) {
            Some(w) => {
                assert(v + w =~= w);
            },
            None => {},
        }
    } else {
        let c = v[0];
        let rest = v.drop_first();
        assert(v =~= seq![c] + rest);
        lemma_quote_body_concat(seq![c], rest);
        assert(seq![c].drop_last() =~= Seq::<char>::empty());
        assert(seq![c].last() == c);
        assert(quote_body(Seq::<char>::empty()) == Seq::<char>::empty());
        let x = quote_body(rest) + r;
        lemma_read_quote_body(rest, r);
        if c == '\'' {
            let s = seq!['\'', '\\', '\'', '\''] + x;
            assert(quote_body(seq![c]) =~= Seq::<char>::empty() + seq!['\'', '\\', '\'', '\'']);
            assert(quote_body(v) + r =~= s);
            let s1 = s.drop_first();
            assert(s1 =~= seq!['\\', '\'', '\''] + x);
            let s2 = s1.skip(2);
            assert(s2 =~= seq!['\''] + x);
            assert(s2.drop_first() =~= x);
            assert(read_shell_word(s2, false) == read_shell_word(x, true));
            assert(read_shell_word(s1, false) == match read_shell_word(s2, false) {
                Some(w) => Some(seq![s1[1]] + w),
                None => None,
            });
            assert(read_shell_word(s, true) == read_shell_word(s1, false));
        } else {
            let s = seq![c] + x;
            assert(quote_body(seq![c]) =~= Seq::<char>::empty() + seq![c]);
            assert(quote_body(v) + r =~= s);
            assert(s.drop_first() =~= x);
            assert(read_shell_word(s, true) == match read_shell_word(x, true) {
                Some(w) => Some(seq![c] + w),
                None => None,
            });
        }
        match read_shell_word(r, true) {
            Some(w) => {
                assert(seq![c] + (rest + w) =~= v + w);
            },
            None => {},
        }
    }
}

/// A POSIX shell reads the quoted form of any value back as exactly one word,
/// equal to the value: no character of it is expanded, split or dropped.
pub proof fn law_shell_quote_reads_back(value: Seq<char>)
    ensures
        read_shell_word(shell_quoted(value), false) == Some(value),
{
    let q = shell_quoted(value);
    let inner = quote_body(value) + seq!['\''];
    assert(q.drop_first() =~= inner);
    lemma_read_quote_body(value, seq!['\'']);
    assert(seq!['\''].drop_first() =~= Seq::<char>::empty());
    assert(read_shell_word(Seq::<char>::empty(), false) == Some(Seq::<char>::empty()));
    assert(read_shell_word(seq!['\''], true) == Some(Seq::<char>::empty()));
    assert(value + Seq::<char>::empty() =~= value);
}

/// A building or running status keeps the application's supervision: the
/// set of supervised applications is unchanged and the caller has nothing to
/// do. A stopped or failed status ends it: the application leaves the set and
/// the caller is told to drop its supervisor. Either way the application's
/// status becomes the reported one, and its health is kept while it builds or
/// runs and forgotten once it stops or fails.
pub proof fn law_status_ends_supervision_exactly_when_inactive(v: EngineView, id: u128, s: StatusView)
    ensures
        (s is Building || s is Running) ==> spec_apply(v, EventView::StatusChanged(id, s)).running == v.running
            && spec_effect(v, EventView::StatusChanged(id, s)) == EventEffect::Nothing,
        (s is Stopped || s is Failed) ==> spec_apply(v, EventView::StatusChanged(id, s)).running == v.running.remove(id)
            && spec_effect(v, EventView::StatusChanged(id, s)) == EventEffect::Ended(id),
        v.runtimes.dom().contains(id) ==> spec_apply(v, EventView::StatusChanged(id, s)).runtimes[id].status == s,
        v.runtimes.dom().contains(id) && (s is Building || s is Running)
            ==> spec_apply(v, EventView::StatusChanged(id, s)).runtimes[id].healthy == v.runtimes[id].healthy,
        v.runtimes.dom().contains(id) && (s is Stopped || s is Failed)
            ==> spec_apply(v, EventView::StatusChanged(id, s)).runtimes[id].healthy is None,
{
    if s is Building || s is Running {
        assert(spec_apply(v, EventView::StatusChanged(id, s)).running =~= v.running);
    }
}

/// A client that has seen the lines numbered below `since`, some of the
/// buffer or all of it, gets exactly the buffered lines it has not seen, as
/// an addition starting at `since`: the lines it holds followed by the
/// delivered ones are the whole buffer, so a client holding that part of the
/// buffer mirrors the whole buffer after the update.
pub proof fn law_partial_client_gets_every_unseen_line(rt: RuntimeView, since: nat)
    requires
        rt.base <= since <= next_seq(rt),
        rt.logs.len() <= MAX_LOG_LINES,
    ensures
        ({
            let (lines, start, replace) = delivered(rt, since);
            let held = rt.logs.take(since - rt.base);
            &&& !replace
            &&& start == since
            &&& lines.len() == next_seq(rt) - since
            &&& held + lines == rt.logs
            &&& synced(held, lines, replace) == rt.logs
        }),
{
    let (lines, start, replace) = delivered(rt, since);
    let k = since - rt.base;
    let held = rt.logs.take(k);
    assert(held + rt.logs.skip(k) =~= rt.logs);
    if lines.len() > 0 {
        assert((held + lines).skip(0) =~= held + lines);
    }
}

/// For every kind but raw shell commands, a command that is not blank is
/// passed on word by word: the arguments after the kind's fixed words are the
/// white-space separated words of the command, in order, each non-empty and
/// free of white space; a blank command gives the kind's default arguments.
pub proof fn law_command_words_become_arguments(command: Seq<char>)
    ensures
        trim(command).len() > 0 ==> {
            &&& spec_commands(AppKind::Npm, command) == seq![("npm"@, split_ws(command))]
            &&& spec_commands(AppKind::Dotnet, command) == seq![("dotnet"@, seq!["run"@] + split_ws(command))]
            &&& spec_commands(AppKind::Maven, command) == seq![("mvn"@, split_ws(command))]
            &&& spec_commands(AppKind::Python, command) == seq![("python3"@, split_ws(command))]
            &&& spec_commands(AppKind::Go, command) == seq![("go"@, seq!["run"@] + split_ws(command))]
        },
        trim(command).len() == 0 ==> {
            &&& spec_commands(AppKind::Maven, command) == seq![("mvn"@, seq!["spring-boot:run"@])]
            &&& spec_commands(AppKind::Python, command) == seq![("python3"@, seq!["main.py"@])]
            &&& spec_commands(AppKind::Go, command) == seq![("go"@, seq!["run"@, "."@])]
        },
        spec_commands(AppKind::Raw, command) == seq![("sh"@, seq!["-c"@, command])],
        forall|i: int| 0 <= i < split_ws(command).len() ==> #[trigger] split_ws(command)[i].len() > 0
            && forall|k: int| 0 <= k < split_ws(command)[i].len() ==> !is_ws(#[trigger] split_ws(command)[i][k]),
{
    lemma_split_ws_words(command);
    assert(seq!["run"@] + seq!["."@] =~= seq!["run"@, "."@]);
}

/// An exported configuration is the configuration itself in every field but
/// its environment variables, which are kept only when asked for; exactly
/// the configurations whose id is asked for are exported, in list order.
pub proof fn law_export_keeps_every_field_but_env_vars(apps: Seq<AppConfigView>, ids: Seq<u128>, include_env_vars: bool)
    ensures
        ({
            let chosen = apps.filter(id_among(ids));
            let out = chosen.map_values(export_with(include_env_vars));
            &&& out.len() == chosen.len()
            &&& forall|k: int| 0 <= k < out.len() ==> {
                &&& ids.contains(#[trigger] out[k].id)
                &&& out[k].id == chosen[k].id
                &&& out[k].name == chosen[k].name
                &&& out[k].working_dir == chosen[k].working_dir
                &&& out[k].command == chosen[k].command
                &&& out[k].kind == chosen[k].kind
                &&& out[k].url == chosen[k].url
                &&& out[k].auto_restart == chosen[k].auto_restart
                &&& out[k].start_order == chosen[k].start_order
                &&& out[k].env_vars == (if include_env_vars { chosen[k].env_vars } else { Seq::empty() })
            }
        }),
{
    let chosen = apps.filter(id_among(ids));
    let out = chosen.map_values(export_with(include_env_vars));
    assert forall|k: int| 0 <= k < out.len() implies ids.contains(#[trigger] out[k].id) by {
        assert(chosen.contains(chosen[k]));
        Seq::filter_lemma(apps, id_among(ids));
        assert(id_among(ids)(chosen[k]));
    }
}

/// Whether `e` holds every field of the imported `app` but the id, with the
/// name trimmed.
pub open spec fn carries_import(e: AppConfigView, app: AppConfigView) -> bool {
    &&& e.name == trim(app.name)
    &&& e.working_dir == app.working_dir
    &&& e.command == app.command
    &&& e.kind == app.kind
    &&& e.url == app.url
    &&& e.env_vars == app.env_vars
    &&& e.auto_restart == app.auto_restart
    &&& e.start_order == app.start_order
}

/// An imported application with a non-blank name whose key no application
/// has is appended after the others, which stay as they were, with the fresh
/// id and every other field it was imported with (its name trimmed); its key
/// is appended to the keys.
pub proof fn law_unmatched_import_is_appended_whole(
    apps: Seq<AppConfigView>,
    keys: Seq<Seq<char>>,
    summary: ImportSummaryView,
    app: AppConfigView,
    key: Seq<char>,
    fresh: u128,
)
    requires
        keys.len() == apps.len(),
        trim(app.name).len() > 0,
        forall|j: int| 0 <= j < keys.len() ==> keys[j] != key,
    ensures
        ({
            let (a, k, s) = keyed_merge_step((apps, keys, summary), app, key, fresh);
            &&& a.len() == apps.len() + 1
            &&& a.take(apps.len() as int) == apps
            &&& a[apps.len() as int].id == fresh
            &&& carries_import(a[apps.len() as int], app)
            &&& k == keys.push(key)
            &&& s.to_add == summary.to_add.push(trim(app.name))
        }),
{
    crate::app_config::lemma_first_key_index_found(keys, key);
    let (a, k, s) = keyed_merge_step((apps, keys, summary), app, key, fresh);
    match crate::app_config::first_key_index(keys, key) {
        Some(g) => { assert(keys[g] != key); },
        None => {},
    }
    assert(a.take(apps.len() as int) =~= apps);
}

/// An imported application with a non-blank name takes the place of the
/// first application with its key: it keeps that application's id and
/// carries every other field it was imported with (its name trimmed); the
/// other applications and the keys stay as they were.
pub proof fn law_matched_import_replaces_in_place(
    apps: Seq<AppConfigView>,
    keys: Seq<Seq<char>>,
    summary: ImportSummaryView,
    app: AppConfigView,
    key: Seq<char>,
    fresh: u128,
    i: int,
)
    requires
        keys.len() == apps.len(),
        trim(app.name).len() > 0,
        0 <= i < keys.len(),
        keys[i] == key,
        forall|j: int| 0 <= j < i ==> keys[j] != key,
    ensures
        ({
            let (a, k, s) = keyed_merge_step((apps, keys, summary), app, key, fresh);
            &&& a.len() == apps.len()
            &&& a[i].id == apps[i].id
            &&& carries_import(a[i], app)
            &&& forall|j: int| 0 <= j < apps.len() && j != i ==> a[j] == apps[j]
            &&& k == keys
            &&& s.to_replace == summary.to_replace.push(trim(app.name))
        }),
{
    crate::app_config::lemma_first_key_index_found(keys, key);
    match crate::app_config::first_key_index(keys, key) {
        Some(g) => {
            if g < i { assert(keys[g] != key); }
            if i < g { assert(keys[i] != key); }
        },
        None => { assert(keys[i] != key); },
    }
}

/// Merging by name: an imported application with a non-blank name whose name
/// key no application has is appended whole (its name trimmed) with the fresh
/// id; otherwise it takes the place of the first application with its name
/// key, keeping that application's id. The other applications stay.
pub proof fn law_import_by_name_keeps_the_imported_fields(
    apps: Seq<AppConfigView>,
    summary: ImportSummaryView,
    app: AppConfigView,
    fresh: u128,
)
    requires
        trim(app.name).len() > 0,
    ensures
        ({
            let (b, _) = merge_step((apps, summary), app, fresh);
            &&& (forall|j: int| 0 <= j < apps.len() ==> name_key(apps[j].name) != name_key(app.name)) ==> {
                &&& b.len() == apps.len() + 1
                &&& b.take(apps.len() as int) == apps
                &&& b[apps.len() as int].id == fresh
                &&& carries_import(b[apps.len() as int], app)
            }
            &&& forall|i: int| 0 <= i < apps.len() && name_key(apps[i].name) == name_key(app.name)
                && (forall|j: int| 0 <= j < i ==> name_key(apps[j].name) != name_key(app.name)) ==> {
                &&& b.len() == apps.len()
                &&& #[trigger] b[i].id == apps[i].id
                &&& carries_import(b[i], app)
                &&& forall|j: int| 0 <= j < apps.len() && j != i ==> b[j] == apps[j]
            }
        }),
{
    let key = crate::text::lowercase(trim(app.name));
    assert(name_key(app.name) == key);
    crate::app_config::lemma_first_with_key_found(apps, key);
    let (b, _) = merge_step((apps, summary), app, fresh);
    if forall|j: int| 0 <= j < apps.len() ==> name_key(apps[j].name) != name_key(app.name) {
        match crate::app_config::first_with_key(apps, key) {
            Some(g) => { assert(name_key(apps[g].name) != key); },
            None => {},
        }
        assert(b.take(apps.len() as int) =~= apps);
    }
    assert forall|i: int| 0 <= i < apps.len() && name_key(apps[i].name) == name_key(app.name)
        && (forall|j: int| 0 <= j < i ==> name_key(apps[j].name) != name_key(app.name)) implies {
        &&& b.len() == apps.len()
        &&& #[trigger] b[i].id == apps[i].id
        &&& carries_import(b[i], app)
        &&& forall|j: int| 0 <= j < apps.len() && j != i ==> b[j] == apps[j]
    } by {
        match crate::app_config::first_with_key(apps, key) {
            Some(g) => {
                if g < i { assert(name_key(apps[g].name) != key); }
                if i < g { assert(name_key(apps[i].name) != key); }
            },
            None => { assert(name_key(apps[i].name) != key); },
        }
    }
}

/// What a frontend is shown of an application reflects its configuration and
/// its run-time state: the configuration unchanged; "failed" with the failure
/// message as error exactly when it failed, no error otherwise; active exactly
/// while it builds or runs; the recorded health; and log lines only when they
/// were asked for this application, none otherwise.
pub proof fn law_view_reflects_the_application(v: EngineView, app: AppConfigView, logs_for: Option<(u128, u64)>)
    ensures
        ({
            let shown = spec_shown(v, app, logs_for);
            let rt = runtime_of(v, app.id);
            &&& shown.config == app
            &&& shown.active == (rt.status is Building || rt.status is Running)
            &&& (rt.status matches StatusView::Failed(m) ==> shown.error == Some(m) && shown.status_label == "failed"@)
            &&& (!(rt.status is Failed) ==> shown.error is None)
            &&& (rt.status is Running ==> shown.status_label == "running"@)
            &&& (rt.status is Building ==> shown.status_label == "building"@)
            &&& (rt.status is Stopped ==> shown.status_label == "stopped"@)
            &&& shown.healthy == rt.healthy
            &&& (!(logs_for matches Some((id, _)) && id == app.id) ==> shown.logs.len() == 0 && !shown.logs_replace)
            &&& (logs_for matches Some((id, since)) ==> (id == app.id ==> (shown.logs, shown.logs_base_seq, shown.logs_replace)
                == delivered(rt, since as nat)))
        }),
{
}

/// The style class of a status's dot is "status-" followed by the status's label.
pub proof fn law_css_class_follows_the_label(s: StatusView)
    ensures
        spec_status_css_class(spec_status_label(s)) == "status-"@ + spec_status_label(s),
{
    reveal_strlit("running");
    reveal_strlit("building");
    reveal_strlit("failed");
    reveal_strlit("stopped");
    reveal_strlit("status-");
    reveal_strlit("status-running");
    reveal_strlit("status-building");
    reveal_strlit("status-failed");
    reveal_strlit("status-stopped");
    assert("running"@.len() == 7 && "building"@.len() == 8 && "failed"@.len() == 6 && "stopped"@.len() == 7);
    assert("running"@[0] == 'r' && "stopped"@[0] == 's');
    assert("status-running"@ =~= "status-"@ + "running"@);
    assert("status-building"@ =~= "status-"@ + "building"@);
    assert("status-failed"@ =~= "status-"@ + "failed"@);
    assert("status-stopped"@ =~= "status-"@ + "stopped"@);
}

/// A health result is recorded for its application and changes nothing else:
/// not its status, not its log lines, not the supervised set, and no other
/// application. A result for an unknown application changes nothing.
pub proof fn law_health_result_is_recorded(v: EngineView, id: u128, h: bool)
    ensures
        ({
            let w = spec_apply(v, EventView::HealthChanged(id, h));
            &&& w.running == v.running
            &&& w.config == v.config
            &&& w.runtimes.dom() == v.runtimes.dom()
            &&& spec_effect(v, EventView::HealthChanged(id, h)) == EventEffect::Nothing
            &&& (v.runtimes.dom().contains(id) ==> w.runtimes[id].healthy == Some(h)
                && w.runtimes[id].status == v.runtimes[id].status
                && w.runtimes[id].logs == v.runtimes[id].logs
                && w.runtimes[id].base == v.runtimes[id].base)
            &&& forall|other: u128| other != id && #[trigger] v.runtimes.dom().contains(other)
                ==> w.runtimes[other] == v.runtimes[other]
            &&& (!v.runtimes.dom().contains(id) ==> w == v)
        }),
{
    if v.runtimes.dom().contains(id) {
        assert(spec_apply(v, EventView::HealthChanged(id, h)).runtimes.dom() =~= v.runtimes.dom());
    }
}

/// A log line for an application the engine does not know changes nothing.
pub proof fn law_log_line_for_unknown_application(v: EngineView, id: u128, line: Seq<char>)
    requires
        !v.runtimes.dom().contains(id),
    ensures
        spec_apply(v, EventView::Log(id, line)) == v,
        spec_effect(v, EventView::Log(id, line)) == EventEffect::Nothing,
{
}

/// A client that claims to have seen more lines than were ever numbered gets
/// nothing, as an addition, and keeps its sequence number.
pub proof fn law_client_ahead_gets_nothing(rt: RuntimeView, since: nat)
    requires
        since >= next_seq(rt),
    ensures
        delivered(rt, since) == (Seq::<Seq<char>>::empty(), since, false),
{
    assert(rt.logs.skip(rt.logs.len() as int) =~= Seq::<Seq<char>>::empty());
}

/// An imported application whose name is blank is refused: the list and the
/// additions and replacements stay, and one more refusal is counted.
pub proof fn law_blank_import_is_refused(
    apps: Seq<AppConfigView>,
    keys: Seq<Seq<char>>,
    summary: ImportSummaryView,
    app: AppConfigView,
    key: Seq<char>,
    fresh: u128,
)
    requires
        trim(app.name).len() == 0,
    ensures
        keyed_merge_step((apps, keys, summary), app, key, fresh) == (apps, keys, ImportSummaryView {
            invalid: summary.invalid + 1,
            ..summary
        }),
        merge_step((apps, summary), app, fresh) == (apps, ImportSummaryView { invalid: summary.invalid + 1, ..summary }),
        merge_step((apps, summary), app, fresh).1.invalid == summary.invalid + 1,
        merge_step((apps, summary), app, fresh).0 == apps,
{
}

/// Exactly the configurations whose id is asked for are exported: each one
/// asked for is in the export, and the export holds nothing else.
pub proof fn law_export_holds_exactly_the_asked_ids(apps: Seq<AppConfigView>, ids: Seq<u128>, include_env_vars: bool)
    ensures
        ({
            let out = apps.filter(id_among(ids)).map_values(export_with(include_env_vars));
            &&& forall|j: int| 0 <= j < apps.len() && ids.contains(#[trigger] apps[j].id)
                ==> exists|k: int| 0 <= k < out.len() && out[k].id == apps[j].id && out[k].name == apps[j].name
            &&& forall|k: int| 0 <= k < out.len() ==> ids.contains(#[trigger] out[k].id)
        }),
{
    let chosen = apps.filter(id_among(ids));
    let out = chosen.map_values(export_with(include_env_vars));
    Seq::filter_lemma(apps, id_among(ids));
    assert forall|j: int| 0 <= j < apps.len() && ids.contains(#[trigger] apps[j].id)
        implies exists|k: int| 0 <= k < out.len() && out[k].id == apps[j].id && out[k].name == apps[j].name by {
        assert(id_among(ids)(apps[j]));
        assert(chosen.contains(apps[j]));
        let k = choose|k: int| 0 <= k < chosen.len() && chosen[k] == apps[j];
        assert(out[k].id == apps[j].id && out[k].name == apps[j].name);
    }
    assert forall|k: int| 0 <= k < out.len() implies ids.contains(#[trigger] out[k].id) by {
        assert(chosen.contains(chosen[k]));
        assert(id_among(ids)(chosen[k]));
    }
}

/// Removing an id drops every application with that id and keeps every other
/// application, in order.
pub proof fn law_remove_drops_exactly_the_id(list: Seq<AppConfigView>, id: u128)
    ensures
        forall|k: int| 0 <= k < list.filter(other_id(id)).len() ==> #[trigger] list.filter(other_id(id))[k].id != id,
        forall|j: int| 0 <= j < list.len() && #[trigger] list[j].id != id ==> list.filter(other_id(id)).contains(list[j]),
        forall|k: int| 0 <= k < list.filter(other_id(id)).len() ==> list.contains(#[trigger] list.filter(other_id(id))[k]),
{
    Seq::filter_lemma(list, other_id(id));
    assert forall|k: int| 0 <= k < list.filter(other_id(id)).len() implies #[trigger] list.filter(other_id(id))[k].id != id by {
        assert(list.filter(other_id(id)).contains(list.filter(other_id(id))[k]));
        assert(other_id(id)(list.filter(other_id(id))[k]));
    }
    assert forall|j: int| 0 <= j < list.len() && #[trigger] list[j].id != id implies list.filter(other_id(id)).contains(list[j]) by {
        assert(other_id(id)(list[j]));
    }
    assert forall|k: int| 0 <= k < list.filter(other_id(id)).len() implies list.contains(#[trigger] list.filter(other_id(id))[k]) by {
        let e = list.filter(other_id(id))[k];
        assert(list.filter(other_id(id)).contains(e));
        list.lemma_filter_contains_rev(other_id(id), e);
    }
}

/// The configuration an application gets from a draft holds the given id and
/// every field of the draft.
pub proof fn law_draft_becomes_the_configuration(id: u128, d: AppDraft)
    ensures
        ({
            let c = config_from_draft(id, d)@;
            &&& c.id == id
            &&& c.name == d.name@
            &&& c.working_dir == d.working_dir@
            &&& c.command == d.command@
            &&& c.kind == d.kind
            &&& c.url == crate::app_config::opt_view(d.url)
            &&& c.env_vars == crate::app_config::pairs_view(d.env_vars@)
            &&& c.auto_restart == d.auto_restart
            &&& c.start_order == d.start_order
        }),
{
}

} // verus!
