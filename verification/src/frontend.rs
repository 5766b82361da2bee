//! What the desktop frontend decides from what the engine reports: the
//! client-side log buffer and its incremental updates, log filtering, row
//! styling, crash notifications, and the add/edit form's fields.

use vstd::prelude::*;
use vstd::string::*;
use crate::app_config::{same_text, AppKind, ImportSummary, ImportSummaryView};
use crate::app_config::{pairs_view, spec_display_name};
use crate::engine::{AppDraft, AppView};
use crate::text::{
    append_count, chars_of, contains_text, decimal, join, join_strings, lowercase, occurs_in, to_lowercase, to_uppercase,
    trim, trimmed, uppercase, views, lemma_views_push,
};

verus! {

/// Most log lines the frontend keeps for the selected application.
pub const MAX_DISPLAYED_LOG_LINES: usize = 5000;

/// The client buffer after an update: replaced, or extended and cut back to
/// its oldest-first last `MAX_DISPLAYED_LOG_LINES` lines.
pub open spec fn synced(buffer: Seq<Seq<char>>, lines: Seq<Seq<char>>, replace: bool) -> Seq<Seq<char>> {
    if replace {
        lines
    } else if lines.len() == 0 {
        buffer
    } else {
        let all = buffer + lines;
        all.skip(overflow(all.len()) as int)
    }
}

/// How many lines past the display limit `len` lines are.
pub open spec fn overflow(len: nat) -> nat {
    if len > MAX_DISPLAYED_LOG_LINES { (len - MAX_DISPLAYED_LOG_LINES) as nat } else { 0 }
}


fn clone_strings_from(v: &Vec<String>, from: usize) -> (r: Vec<String>)
    requires
        from <= v@.len(),
    ensures
        views(r@) == views(v@).skip(from as int),
{
    let mut r: Vec<String> = Vec::new();
    let n = v.len();
    let mut k = from;
    while k < n
        invariant
            from <= k <= n == v@.len(),
            views(r@) == views(v@).subrange(from as int, k as int),
        decreases n - k,
    {
        let s = v[k].clone();
        proof {
            lemma_views_push(r@, s);
        }
        r.push(s);
        assert(views(r@) =~= views(v@).subrange(from as int, k + 1));
        k = k + 1;
    }
    assert(views(v@).subrange(from as int, n as int) =~= views(v@).skip(from as int));
    r
}

/// Folds the log lines of a listing into the selected application's client
/// buffer. Returns, when the buffer was extended and shown before, the number
/// of lines cut from its front and the new lines still in it (so the display
/// can be patched rather than redrawn), and the sequence number to ask from
/// next time.
pub fn sync_selected_logs(buffer: &mut Vec<String>, view: &AppView) -> (r: (Option<(usize, Vec<String>)>, u64))
    requires
        view.logs_base_seq + view.logs@.len() <= u64::MAX,
    ensures
        views(final(buffer)@) == synced(views(old(buffer)@), views(view.logs@), view.logs_replace),
        r.1 == view.logs_base_seq + view.logs@.len(),
        !view.logs_replace && view.logs@.len() > 0 && old(buffer)@.len() > 0 ==> (r.0 matches Some((cut, appended))
            && cut == overflow(old(buffer)@.len() + view.logs@.len())
            && views(appended@) == views(final(buffer)@).skip(
                final(buffer)@.len() - (if view.logs@.len() <= final(buffer)@.len() { view.logs@.len() as int } else { final(buffer)@.len() as int }),
            )),
        !(!view.logs_replace && view.logs@.len() > 0 && old(buffer)@.len() > 0) ==> r.0 is None,
{
    let since = view.logs_base_seq + view.logs.len() as u64;
    if view.logs_replace {
        let fresh = clone_strings_from(&view.logs, 0);
        *buffer = fresh;
        assert(views(view.logs@).skip(0) =~= views(view.logs@));
        return (None, since);
    }
    if view.logs.len() == 0 {
        return (None, since);
    }
    let was_empty = buffer.len() == 0;
    let ghost start = views(buffer@);
    let n = view.logs.len();
    for i in 0..n
        invariant
            n == view.logs@.len(),
            views(buffer@) == start + views(view.logs@).take(i as int),
    {
        let s = view.logs[i].clone();
        proof {
            lemma_views_push(buffer@, s);
        }
        buffer.push(s);
        assert(views(buffer@) =~= start + views(view.logs@).take(i + 1));
    }
    assert(views(view.logs@).take(n as int) =~= views(view.logs@));
    let ghost all = views(buffer@);
    let len = buffer.len();
    let cut: usize = if len > MAX_DISPLAYED_LOG_LINES { len - MAX_DISPLAYED_LOG_LINES } else { 0 };
    if cut > 0 {
        let kept = buffer.split_off(cut);
        *buffer = kept;
    }
    assert(views(buffer@) =~= all.skip(cut as int));
    if was_empty {
        return (None, since);
    }
    let blen = buffer.len();
    let survive = if n <= blen { n } else { blen };
    let appended = clone_strings_from(buffer, blen - survive);
    (Some((cut, appended)), since)
}

/// The buffered lines shown under a search: all of them when the search is
/// empty once lower-cased, otherwise those whose lower-cased text contains the
/// lower-cased search; one per line.
pub open spec fn shown_log_text(logs: Seq<Seq<char>>, search: Seq<char>) -> Seq<char> {
    let needle = lowercase(search);
    if needle.len() == 0 {
        join(logs, "\n"@)
    } else {
        join(logs.filter(matches_search(needle)), "\n"@)
    }
}

pub open spec fn matches_search(needle: Seq<char>) -> spec_fn(Seq<char>) -> bool {
    |l: Seq<char>| occurs_in(needle, lowercase(l))
}

/// The lines whose lower-cased text (`lowered`, line for line) contains `needle`.
pub open spec fn kept_lines(logs: Seq<Seq<char>>, lowered: Seq<Seq<char>>, needle: Seq<char>) -> Seq<Seq<char>>
    decreases logs.len(),
{
    if logs.len() == 0 {
        Seq::empty()
    } else {
        let rest = kept_lines(logs.drop_last(), lowered.take(logs.len() - 1), needle);
        if occurs_in(needle, lowered[logs.len() - 1]) {
            rest.push(logs.last())
        } else {
            rest
        }
    }
}

/// The text shown for the lines `logs` under the lower-cased search `needle`,
/// given the lower-cased text of each line: every line when the needle is
/// empty, otherwise the lines whose lower-cased text contains it; one per line.
pub open spec fn matching_text(logs: Seq<Seq<char>>, lowered: Seq<Seq<char>>, needle: Seq<char>) -> Seq<char> {
    if needle.len() == 0 {
        join(logs, "\n"@)
    } else {
        join(kept_lines(logs, lowered, needle), "\n"@)
    }
}

/// The log pane's text for `logs` under the lower-cased search `needle`, where
/// `lowered[i]` is the lower-cased text of `logs[i]`.
pub fn log_text_matching(logs: &Vec<String>, lowered: &Vec<String>, needle: &str) -> (r: String)
    requires
        lowered@.len() == logs@.len(),
    ensures
        r@ == matching_text(views(logs@), views(lowered@), needle@),
{
    if needle.is_empty() {
        return join_strings(logs, "\n");
    }
    let mut kept: Vec<String> = Vec::new();
    let n = logs.len();
    assert(views(logs@).take(0) =~= Seq::<Seq<char>>::empty());
    for i in 0..n
        invariant
            n == logs@.len() == lowered@.len(),
            views(kept@) == kept_lines(views(logs@).take(i as int), views(lowered@).take(i as int), needle@),
    {
        let ghost pre = views(kept@);
        let ghost lt = views(logs@).take(i + 1);
        let ghost wt = views(lowered@).take(i + 1);
        assert(lt.drop_last() =~= views(logs@).take(i as int));
        assert(wt.take(i as int) =~= views(lowered@).take(i as int));
        assert(wt[i as int] == lowered@[i as int]@);
        assert(lt.last() == logs@[i as int]@);
        if contains_text(lowered[i].as_str(), needle) {
            let s = logs[i].clone();
            proof {
                lemma_views_push(kept@, s);
            }
            kept.push(s);
        }
    }
    assert(views(logs@).take(n as int) =~= views(logs@));
    assert(views(lowered@).take(n as int) =~= views(lowered@));
    join_strings(&kept, "\n")
}

/// The kept lines are the lines whose lower-cased text contains the needle,
/// in order, when `lowered` holds the lower-cased text of each line.
pub proof fn lemma_kept_lines_filter(logs: Seq<Seq<char>>, lowered: Seq<Seq<char>>, needle: Seq<char>)
    requires
        lowered.len() == logs.len(),
        forall|i: int| 0 <= i < logs.len() ==> #[trigger] lowered[i] == lowercase(logs[i]),
    ensures
        kept_lines(logs, lowered, needle) == logs.filter(matches_search(needle)),
    decreases logs.len(),
{
    reveal_with_fuel(Seq::filter, 1);
    if logs.len() > 0 {
        let m = logs.len() - 1;
        let lw = lowered.take(m);
        assert forall|i: int| 0 <= i < logs.drop_last().len() implies #[trigger] lw[i] == lowercase(logs.drop_last()[i]) by {
            assert(lw[i] == lowered[i]);
        }
        lemma_kept_lines_filter(logs.drop_last(), lw, needle);
        assert(lowered[m] == lowercase(logs[m]));
    }
}

/// The text of the log pane for the selected application under a search: the
/// search and every line are lower-cased, then `log_text_matching` decides.
pub fn log_text_for(logs: &Vec<String>, search: &str) -> (r: String)
    ensures
        r@ == shown_log_text(views(logs@), search@),
{
    let needle = to_lowercase(search);
    let mut lowered: Vec<String> = Vec::new();
    let n = logs.len();
    for i in 0..n
        invariant
            n == logs@.len(),
            lowered@.len() == i,
            forall|k: int| 0 <= k < i ==> #[trigger] lowered@[k]@ == lowercase(logs@[k]@),
    {
        let l = to_lowercase(logs[i].as_str());
        lowered.push(l);
    }
    let r = log_text_matching(logs, &lowered, needle.as_str());
    proof {
        assert forall|i: int| 0 <= i < views(logs@).len() implies #[trigger] views(lowered@)[i] == lowercase(views(logs@)[i]) by {
            assert(lowered@[i]@ == lowercase(logs@[i]@));
        }
        lemma_kept_lines_filter(views(logs@), views(lowered@), needle@);
    }
    r
}


/// The style class of a row's status dot.
pub open spec fn spec_status_css_class(label: Seq<char>) -> Seq<char> {
    if label == "running"@ {
        "status-running"@
    } else if label == "building"@ {
        "status-building"@
    } else if label == "failed"@ {
        "status-failed"@
    } else {
        "status-stopped"@
    }
}

pub fn status_css_class(status_label: &str) -> (r: &'static str)
    ensures
        r@ == spec_status_css_class(status_label@),
{
    if same_text(status_label, "running") {
        "status-running"
    } else if same_text(status_label, "building") {
        "status-building"
    } else if same_text(status_label, "failed") {
        "status-failed"
    } else {
        "status-stopped"
    }
}

/// The kind label of a row: the kind's name in capitals.
pub fn kind_label_text(kind: AppKind) -> (r: String)
    ensures
        r@ == uppercase(spec_display_name(kind)),
{
    to_uppercase(kind.display_name())
}

/// A crash notification is due when an application is seen failed and was
/// not seen failed at the previous refresh.
pub fn is_new_failure(previous: Option<&str>, current: &str) -> (r: bool)
    ensures
        r == (current@ == "failed"@ && !(previous matches Some(p) && p@ == "failed"@)),
{
    if !same_text(current, "failed") {
        return false;
    }
    match previous {
        Some(p) => !same_text(p, "failed"),
        None => true,
    }
}

/// The kinds in the order the form's drop-down lists them.
pub open spec fn kind_order() -> Seq<AppKind> {
    seq![AppKind::Cargo, AppKind::Npm, AppKind::Dotnet, AppKind::Maven, AppKind::Python, AppKind::Go, AppKind::Raw]
}

/// The drop-down position of a kind; 0 when there is none.
pub fn kind_to_index(kind: Option<AppKind>) -> (r: u32)
    ensures
        r < 7,
        kind matches Some(k) ==> kind_order()[r as int] == k,
        kind is None ==> r == 0,
{
    match kind {
        Some(AppKind::Cargo) => 0,
        Some(AppKind::Npm) => 1,
        Some(AppKind::Dotnet) => 2,
        Some(AppKind::Maven) => 3,
        Some(AppKind::Python) => 4,
        Some(AppKind::Go) => 5,
        Some(AppKind::Raw) => 6,
        None => 0,
    }
}

/// The kind at a drop-down position; Cargo past the end.
pub fn kind_at(index: u32) -> (k: AppKind)
    ensures
        index < 7 ==> k == kind_order()[index as int],
        index >= 7 ==> k == AppKind::Cargo,
{
    let kinds = AppKind::all();
    if (index as usize) < kinds.len() {
        kinds[index as usize]
    } else {
        AppKind::Cargo
    }
}

/// The lines of a text (`str::lines`): split after each line feed, the line
/// feed and a carriage return right before it dropped; a final line feed does
/// not start another line.
pub open spec fn text_lines(s: Seq<char>) -> Seq<Seq<char>>
    decreases s.len(),
{
    if s.len() == 0 {
        Seq::empty()
    } else {
        let i = line_end(s);
        if i < s.len() {
            proof {
                lemma_line_end(s);
            }
            seq![strip_cr(s.take(i))] + text_lines(s.skip(i + 1))
        } else {
            seq![s]
        }
    }
}

/// Index of the first line feed of `s`, or its length.
pub open spec fn line_end(s: Seq<char>) -> int
    decreases s.len(),
{
    if s.len() == 0 {
        0
    } else if s[0] == '\n' {
        0
    } else {
        1 + line_end(s.drop_first())
    }
}

pub proof fn lemma_line_end(s: Seq<char>)
    ensures
        0 <= line_end(s) <= s.len(),
        line_end(s) < s.len() ==> s[line_end(s)] == '\n',
        forall|k: int| 0 <= k < line_end(s) ==> s[k] != '\n',
    decreases s.len(),
{
    if s.len() > 0 && s[0] != '\n' {
        lemma_line_end(s.drop_first());
        assert forall|k: int| 0 <= k < line_end(s) implies s[k] != '\n' by {
            if k > 0 {
                assert(s[k] == s.drop_first()[k - 1]);
            }
        }
    }
}

/// A line without its trailing carriage return, if any.
pub open spec fn strip_cr(l: Seq<char>) -> Seq<char> {
    if l.len() > 0 && l.last() == '\r' {
        l.drop_last()
    } else {
        l
    }
}

/// Index of the first `=` of a line, or its length.
pub open spec fn eq_index(l: Seq<char>) -> int
    decreases l.len(),
{
    if l.len() == 0 {
        0
    } else if l[0] == '=' {
        0
    } else {
        1 + eq_index(l.drop_first())
    }
}

pub proof fn lemma_eq_index(l: Seq<char>)
    ensures
        0 <= eq_index(l) <= l.len(),
        eq_index(l) < l.len() ==> l[eq_index(l)] == '=',
        forall|k: int| 0 <= k < eq_index(l) ==> l[k] != '=',
    decreases l.len(),
{
    if l.len() > 0 && l[0] != '=' {
        lemma_eq_index(l.drop_first());
        assert forall|k: int| 0 <= k < eq_index(l) implies l[k] != '=' by {
            if k > 0 {
                assert(l[k] == l.drop_first()[k - 1]);
            }
        }
    }
}

/// The `KEY=VALUE` pair a line holds: split at the first `=`, both sides
/// trimmed; lines without `=` hold none.
pub open spec fn env_pair(l: Seq<char>) -> Option<(Seq<char>, Seq<char>)> {
    let e = eq_index(l);
    if e < l.len() {
        Some((trim(l.take(e)), trim(l.skip(e + 1))))
    } else {
        None
    }
}

/// The environment variables a text holds: one `KEY=VALUE` per line, lines
/// without `=` or with an empty key skipped.
pub open spec fn parsed_env(lines: Seq<Seq<char>>) -> Seq<(Seq<char>, Seq<char>)>
    decreases lines.len(),
{
    if lines.len() == 0 {
        Seq::empty()
    } else {
        let rest = parsed_env(lines.drop_last());
        match env_pair(lines.last()) {
            Some(p) => if p.0.len() > 0 { rest.push(p) } else { rest },
            None => rest,
        }
    }
}


proof fn lemma_line_end_at(s: Seq<char>, j: int)
    requires
        0 <= j <= s.len(),
        forall|k: int| 0 <= k < j ==> #[trigger] s[k] != '\n',
        j == s.len() || s[j] == '\n',
    ensures
        line_end(s) == j,
    decreases j,
{
    if j > 0 {
        assert forall|k: int| 0 <= k < j - 1 implies #[trigger] s.drop_first()[k] != '\n' by {
            assert(s.drop_first()[k] == s[k + 1]);
        }
        lemma_line_end_at(s.drop_first(), j - 1);
    }
}

proof fn lemma_eq_index_at(s: Seq<char>, j: int)
    requires
        0 <= j <= s.len(),
        forall|k: int| 0 <= k < j ==> #[trigger] s[k] != '=',
        j == s.len() || s[j] == '=',
    ensures
        eq_index(s) == j,
    decreases j,
{
    if j > 0 {
        assert forall|k: int| 0 <= k < j - 1 implies #[trigger] s.drop_first()[k] != '=' by {
            assert(s.drop_first()[k] == s[k + 1]);
        }
        lemma_eq_index_at(s.drop_first(), j - 1);
    }
}

/// Reads the environment variables of the form's text box.
pub fn parse_env_vars(text: &str) -> (r: Vec<(String, String)>)
    ensures
        pairs_view(r@) == parsed_env(text_lines(text@)),
{
    let v = chars_of(text);
    let n = v.len();
    let mut r: Vec<(String, String)> = Vec::new();
    let mut pos: usize = 0;
    let ghost mut done: Seq<Seq<char>> = Seq::empty();
    assert(v@.skip(0) =~= v@);
    while pos < n
        invariant
            pos <= n == v@.len(),
            v@ == text@,
            text_lines(v@) == done + text_lines(v@.skip(pos as int)),
            pairs_view(r@) == parsed_env(done),
        decreases n - pos,
    {
        let ghost rest = v@.skip(pos as int);
        let mut e = pos;
        while e < n && v[e] != '\n'
            invariant
                pos <= e <= n == v@.len(),
                forall|k: int| pos <= k < e ==> #[trigger] v@[k] != '\n',
            decreases n - e,
        {
            e = e + 1;
        }
        proof {
            assert forall|k: int| 0 <= k < e - pos implies #[trigger] rest[k] != '\n' by {
                assert(rest[k] == v@[k + pos]);
            }
            if e < n {
                assert(rest[e - pos] == v@[e as int]);
            }
            lemma_line_end_at(rest, e - pos);
        }
        let stop = if e < n && e > pos && v[e - 1] == '\r' { e - 1 } else { e };
        let ghost line = v@.subrange(pos as int, stop as int);
        proof {
            if e < n {
                assert(rest.take(e - pos) =~= v@.subrange(pos as int, e as int));
                if e > pos && v@[e - 1] == '\r' {
                    assert(v@.subrange(pos as int, e as int).drop_last() =~= line);
                } else {
                    assert(v@.subrange(pos as int, e as int) =~= line);
                }
                assert(line == strip_cr(rest.take(e - pos)));
                assert(rest.skip(e - pos + 1) =~= v@.skip(e + 1));
                assert(text_lines(rest) == seq![line] + text_lines(v@.skip(e + 1)));
            } else {
                assert(rest =~= line);
                assert(v@.skip(n as int) =~= Seq::<char>::empty());
                assert(text_lines(rest) == seq![line]);
                assert(text_lines(v@.skip(n as int)) == Seq::<Seq<char>>::empty());
                assert(seq![line] + text_lines(v@.skip(n as int)) =~= seq![line]);
            }
        }
        let mut q = pos;
        while q < stop && v[q] != '='
            invariant
                pos <= q <= stop <= n == v@.len(),
                forall|k: int| pos <= k < q ==> #[trigger] v@[k] != '=',
            decreases stop - q,
        {
            q = q + 1;
        }
        proof {
            assert forall|k: int| 0 <= k < q - pos implies #[trigger] line[k] != '=' by {
                assert(line[k] == v@[k + pos]);
            }
            if q < stop {
                assert(line[q - pos] == v@[q as int]);
            }
            lemma_eq_index_at(line, q - pos);
        }
        let ghost before = r@;
        if q < stop {
            let key = trimmed(text.substring_char(pos, q));
            let value = trimmed(text.substring_char(q + 1, stop));
            proof {
                assert(line.take(q - pos) =~= v@.subrange(pos as int, q as int));
                assert(line.skip(q - pos + 1) =~= v@.subrange(q + 1, stop as int));
            }
            if !key.as_str().is_empty() {
                r.push((key, value));
                assert(pairs_view(r@) =~= pairs_view(before).push((key@, value@)));
            }
        }
        proof {
            let old_done = done;
            done = done.push(line);
            assert(done.drop_last() =~= old_done);
            assert(old_done + text_lines(rest) =~= done + text_lines(v@.skip((if e < n { e + 1 } else { e as int }))));
        }
        pos = if e < n { e + 1 } else { e };
    }
    assert(v@.skip(n as int) =~= Seq::<char>::empty());
    assert(done + Seq::<Seq<char>>::empty() =~= done);
    r
}

/// The text box contents for environment variables: `KEY=VALUE`, one per line.
pub fn env_vars_text(env_vars: &Vec<(String, String)>) -> (r: String)
    ensures
        r@ == join(pairs_view(env_vars@).map_values(|p: (Seq<char>, Seq<char>)| p.0 + "="@ + p.1), "\n"@),
{
    let mut lines: Vec<String> = Vec::new();
    let n = env_vars.len();
    for i in 0..n
        invariant
            n == env_vars@.len(),
            views(lines@) == pairs_view(env_vars@).take(i as int).map_values(|p: (Seq<char>, Seq<char>)| p.0 + "="@ + p.1),
    {
        let mut l = env_vars[i].0.clone();
        l.append("=");
        l.append(env_vars[i].1.as_str());
        proof {
            lemma_views_push(lines@, l);
        }
        lines.push(l);
        assert(views(lines@) =~= pairs_view(env_vars@).take(i + 1).map_values(|p: (Seq<char>, Seq<char>)| p.0 + "="@ + p.1));
    }
    assert(pairs_view(env_vars@).take(n as int) =~= pairs_view(env_vars@));
    join_strings(&lines, "\n")
}


/// The kind at a drop-down position, as `kind_at` gives it.
pub open spec fn spec_kind_at(index: u32) -> AppKind {
    if index < 7 {
        kind_order()[index as int]
    } else {
        AppKind::Cargo
    }
}

/// The draft the add/edit form yields: text fields trimmed, an empty address
/// left out, environment variables read one per line.
pub fn draft_from_form(
    name: &str,
    working_dir: &str,
    kind_index: u32,
    command: &str,
    url: &str,
    env_text: &str,
    auto_restart: bool,
    start_order: i32,
) -> (d: AppDraft)
    ensures
        d.name@ == trim(name@),
        d.working_dir@ == trim(working_dir@),
        d.kind == spec_kind_at(kind_index),
        d.command@ == trim(command@),
        trim(url@).len() == 0 ==> d.url is None,
        trim(url@).len() > 0 ==> (d.url matches Some(u) && u@ == trim(url@)),
        pairs_view(d.env_vars@) == parsed_env(text_lines(env_text@)),
        d.auto_restart == auto_restart,
        d.start_order == start_order,
{
    let url = trimmed(url);
    AppDraft {
        name: trimmed(name),
        working_dir: trimmed(working_dir),
        kind: kind_at(kind_index),
        command: trimmed(command),
        url: if url.as_str().is_empty() { None } else { Some(url) },
        env_vars: parse_env_vars(env_text),
        auto_restart,
        start_order,
    }
}

/// Whether some application of the listing has the given id.
pub open spec fn listed(apps: Seq<AppView>, id: u128) -> bool {
    exists|i: int| 0 <= i < apps.len() && #[trigger] apps[i].id == id
}

/// The selection after a refresh, and whether the client log state must be
/// reset: a selection still listed stays; otherwise the first application
/// listed is selected afresh; with nothing listed the selection stays.
pub fn choose_selection(selected: Option<u128>, apps: &Vec<AppView>) -> (r: (Option<u128>, bool))
    ensures
        (selected matches Some(id) && listed(apps@, id)) ==> r == (selected, false),
        !(selected matches Some(id) && listed(apps@, id)) && apps@.len() > 0 ==> r == (Some(apps@[0].id), true),
        !(selected matches Some(id) && listed(apps@, id)) && apps@.len() == 0 ==> r == (selected, false),
{
    if let Some(id) = selected {
        let n = apps.len();
        for i in 0..n
            invariant
                n == apps@.len(),
                selected == Some(id),
                forall|k: int| 0 <= k < i ==> #[trigger] apps@[k].id != id,
        {
            if apps[i].id == id {
                assert(apps@[i as int].id == id);
                assert(listed(apps@, id));
                return (selected, false);
            }
        }
    }
    if apps.len() > 0 {
        (Some(apps[0].id), true)
    } else {
        (selected, false)
    }
}

/// What a refresh does with the client's selection state: a selection still
/// listed stays, with its sequence number and buffer; otherwise the first
/// listed application is selected afresh and the client log state is reset
/// (sequence number 0, empty buffer), so that the old application's sequence
/// number cannot corrupt the new one's log delta; with nothing listed nothing
/// changes. Returns the selection, the sequence number to ask from, and
/// whether the state was reset.
pub fn settle_selection(
    selected: Option<u128>,
    since_seq: u64,
    logs: &mut Vec<String>,
    apps: &Vec<AppView>,
) -> (r: (Option<u128>, u64, bool))
    ensures
        (selected matches Some(id) && listed(apps@, id)) || apps@.len() == 0 ==> r == (selected, since_seq, false)
            && final(logs)@ == old(logs)@,
        !(selected matches Some(id) && listed(apps@, id)) && apps@.len() > 0 ==> r == (Some(apps@[0].id), 0u64, true)
            && final(logs)@.len() == 0,
{
    let (chosen, reset) = choose_selection(selected, apps);
    if reset {
        logs.clear();
        (chosen, 0, true)
    } else {
        (chosen, since_seq, false)
    }
}

/// The confirmation text of an import: how many applications it adds and
/// which, on a line of their own, then how many it replaces and which; a part
/// with no application is left out.
pub open spec fn import_detail_text(s: ImportSummaryView) -> Seq<char> {
    (if s.to_add.len() > 0 {
        decimal(s.to_add.len() as int) + " app(s) seront ajoutées : "@ + join(s.to_add, ", "@) + "\n"@
    } else {
        Seq::empty()
    }) + (if s.to_replace.len() > 0 {
        decimal(s.to_replace.len() as int) + " app(s) seront remplacées : "@ + join(s.to_replace, ", "@)
    } else {
        Seq::empty()
    })
}

/// The confirmation text shown before an import is applied.
pub fn import_detail(summary: &ImportSummary) -> (r: String)
    ensures
        r@ == import_detail_text(summary@),
{
    let mut detail = String::new();
    if summary.to_add.len() > 0 {
        append_count(&mut detail, summary.to_add.len());
        detail.append(" app(s) seront ajoutées : ");
        let names = join_strings(&summary.to_add, ", ");
        detail.append(names.as_str());
        detail.append("\n");
    }
    let ghost first = detail@;
    assert(first == (if summary@.to_add.len() > 0 {
        decimal(summary@.to_add.len() as int) + " app(s) seront ajoutées : "@ + join(summary@.to_add, ", "@) + "\n"@
    } else {
        Seq::<char>::empty()
    }));
    if summary.to_replace.len() > 0 {
        append_count(&mut detail, summary.to_replace.len());
        detail.append(" app(s) seront remplacées : ");
        let names = join_strings(&summary.to_replace, ", ");
        detail.append(names.as_str());
        assert(detail@ =~= import_detail_text(summary@));
    } else {
        assert(detail@ =~= import_detail_text(summary@));
    }
    detail
}

} // verus!
