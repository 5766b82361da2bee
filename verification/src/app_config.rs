use vstd::prelude::*;
use crate::text::{chars_of, lemma_trim_idempotent, lemma_views_push, lowercase, to_lowercase, trim, trimmed, views};

verus! {

/// The toolchain an application is launched with.
#[derive(Debug, Clone, Copy, PartialEq, Eq, Structural)]
pub enum AppKind {
    Cargo,
    Npm,
    Dotnet,
    Maven,
    Python,
    Go,
    Raw,
}

pub open spec fn spec_display_name(kind: AppKind) -> Seq<char> {
    match kind {
        AppKind::Cargo => "Cargo"@,
        AppKind::Npm => "Npm"@,
        AppKind::Dotnet => "Dotnet"@,
        AppKind::Maven => "Maven"@,
        AppKind::Python => "Python"@,
        AppKind::Go => "Go"@,
        AppKind::Raw => "Raw"@,
    }
}

impl AppKind {
    /// PascalCase name, as the configuration file and the user interface write it.
    pub fn display_name(self) -> (name: &'static str)
        ensures
            name@ == spec_display_name(self),
    {
        match self {
            AppKind::Cargo => "Cargo",
            AppKind::Npm => "Npm",
            AppKind::Dotnet => "Dotnet",
            AppKind::Maven => "Maven",
            AppKind::Python => "Python",
            AppKind::Go => "Go",
            AppKind::Raw => "Raw",
        }
    }
}


pub open spec fn spec_ffi_str(kind: AppKind) -> Seq<char> {
    match kind {
        AppKind::Cargo => "cargo"@,
        AppKind::Npm => "npm"@,
        AppKind::Dotnet => "dotnet"@,
        AppKind::Maven => "maven"@,
        AppKind::Python => "python"@,
        AppKind::Go => "go"@,
        AppKind::Raw => "raw"@,
    }
}

/// The kind whose wire name is `s`, if any.
pub open spec fn spec_from_ffi_str(s: Seq<char>) -> Option<AppKind> {
    if s == "cargo"@ {
        Some(AppKind::Cargo)
    } else if s == "npm"@ {
        Some(AppKind::Npm)
    } else if s == "dotnet"@ {
        Some(AppKind::Dotnet)
    } else if s == "maven"@ {
        Some(AppKind::Maven)
    } else if s == "python"@ {
        Some(AppKind::Python)
    } else if s == "go"@ {
        Some(AppKind::Go)
    } else if s == "raw"@ {
        Some(AppKind::Raw)
    } else {
        None
    }
}

/// Whether two string slices hold the same characters.
pub fn same_text(a: &str, b: &str) -> (r: bool)
    ensures
        r == (a@ == b@),
{
    let x = chars_of(a);
    let y = chars_of(b);
    if x.len() != y.len() {
        return false;
    }
    let n = x.len();
    for i in 0..n
        invariant
            n == x.len() == y.len(),
            x@ == a@,
            y@ == b@,
            forall|k: int| 0 <= k < i ==> x@[k] == y@[k],
    {
        if x[i] != y[i] {
            return false;
        }
    }
    assert(x@ =~= y@);
    true
}

impl AppKind {
    /// Every kind, in the order the user interface lists them.
    pub fn all() -> (kinds: [AppKind; 7])
        ensures
            kinds@ == seq![AppKind::Cargo, AppKind::Npm, AppKind::Dotnet, AppKind::Maven, AppKind::Python, AppKind::Go, AppKind::Raw],
    {
        [AppKind::Cargo, AppKind::Npm, AppKind::Dotnet, AppKind::Maven, AppKind::Python, AppKind::Go, AppKind::Raw]
    }

    /// Lower-case wire name used across the foreign-function boundary.
    pub fn ffi_str(self) -> (name: &'static str)
        ensures
            name@ == spec_ffi_str(self),
    {
        match self {
            AppKind::Cargo => "cargo",
            AppKind::Npm => "npm",
            AppKind::Dotnet => "dotnet",
            AppKind::Maven => "maven",
            AppKind::Python => "python",
            AppKind::Go => "go",
            AppKind::Raw => "raw",
        }
    }

    /// The kind with the given wire name; `None` for any other string.
    pub fn from_ffi_str(s: &str) -> (kind: Option<AppKind>)
        ensures
            kind == spec_from_ffi_str(s@),
    {
        if same_text(s, "cargo") {
            Some(AppKind::Cargo)
        } else if same_text(s, "npm") {
            Some(AppKind::Npm)
        } else if same_text(s, "dotnet") {
            Some(AppKind::Dotnet)
        } else if same_text(s, "maven") {
            Some(AppKind::Maven)
        } else if same_text(s, "python") {
            Some(AppKind::Python)
        } else if same_text(s, "go") {
            Some(AppKind::Go)
        } else if same_text(s, "raw") {
            Some(AppKind::Raw)
        } else {
            None
        }
    }
}

/// Reading back the wire name of a kind gives the kind again.
pub proof fn lemma_ffi_str_round_trip(kind: AppKind)
    ensures
        spec_from_ffi_str(spec_ffi_str(kind)) == Some(kind),
{
    reveal_strlit("cargo");
    reveal_strlit("npm");
    reveal_strlit("dotnet");
    reveal_strlit("maven");
    reveal_strlit("python");
    reveal_strlit("go");
    reveal_strlit("raw");
    assert("cargo"@.len() == 5 && "npm"@.len() == 3 && "dotnet"@.len() == 6 && "maven"@.len() == 5);
    assert("python"@.len() == 6 && "go"@.len() == 2 && "raw"@.len() == 3);
    assert("cargo"@[0] == 'c' && "maven"@[0] == 'm' && "npm"@[0] == 'n' && "raw"@[0] == 'r');
    assert("dotnet"@[0] == 'd' && "python"@[0] == 'p');
}

/// `s` with every ASCII capital letter replaced by its small letter.
pub open spec fn ascii_lower(s: Seq<char>) -> Seq<char> {
    s.map_values(|c: char| if 'A' <= c && c <= 'Z' { ((c as u32) + 32) as char } else { c })
}

/// The wire name of a kind is its display name in small letters, and distinct
/// kinds have distinct display names and distinct wire names.
pub proof fn lemma_wire_name_is_lowered_display_name(kind: AppKind, other: AppKind)
    ensures
        spec_ffi_str(kind) == ascii_lower(spec_display_name(kind)),
        kind != other ==> spec_display_name(kind) != spec_display_name(other),
        kind != other ==> spec_ffi_str(kind) != spec_ffi_str(other),
{
    reveal_strlit("cargo");
    reveal_strlit("npm");
    reveal_strlit("dotnet");
    reveal_strlit("maven");
    reveal_strlit("python");
    reveal_strlit("go");
    reveal_strlit("raw");
    reveal_strlit("Cargo");
    reveal_strlit("Npm");
    reveal_strlit("Dotnet");
    reveal_strlit("Maven");
    reveal_strlit("Python");
    reveal_strlit("Go");
    reveal_strlit("Raw");
    assert(ascii_lower("Cargo"@) =~= "cargo"@);
    assert(ascii_lower("Npm"@) =~= "npm"@);
    assert(ascii_lower("Dotnet"@) =~= "dotnet"@);
    assert(ascii_lower("Maven"@) =~= "maven"@);
    assert(ascii_lower("Python"@) =~= "python"@);
    assert(ascii_lower("Go"@) =~= "go"@);
    assert(ascii_lower("Raw"@) =~= "raw"@);
    lemma_ffi_str_round_trip(kind);
    lemma_ffi_str_round_trip(other);
    assert("Cargo"@[0] == 'C' && "Npm"@[0] == 'N' && "Dotnet"@[0] == 'D' && "Maven"@[0] == 'M');
    assert("Python"@[0] == 'P' && "Go"@[0] == 'G' && "Raw"@[0] == 'R');
}

impl Default for AppKind {
    fn default() -> (k: AppKind)
        ensures
            k == AppKind::Raw,
    {
        AppKind::Raw
    }
}


/// The characters of an optional string.
pub open spec fn opt_view(o: Option<String>) -> Option<Seq<char>> {
    match o {
        Some(s) => Some(s@),
        None => None,
    }
}

/// The characters of each key/value pair.
pub open spec fn pairs_view(v: Seq<(String, String)>) -> Seq<(Seq<char>, Seq<char>)> {
    v.map_values(|p: (String, String)| (p.0@, p.1@))
}

pub fn clone_opt_string(o: &Option<String>) -> (r: Option<String>)
    ensures
        opt_view(r) == opt_view(*o),
{
    match o {
        Some(s) => Some(s.clone()),
        None => None,
    }
}

pub fn clone_pairs(v: &Vec<(String, String)>) -> (r: Vec<(String, String)>)
    ensures
        pairs_view(r@) == pairs_view(v@),
{
    let mut r: Vec<(String, String)> = Vec::new();
    for i in 0..v.len()
        invariant
            pairs_view(r@) == pairs_view(v@.take(i as int)),
    {
        let ghost before = r@;
        let k = v[i].0.clone();
        let x = v[i].1.clone();
        assert(k@ == v@[i as int].0@ && x@ == v@[i as int].1@);
        r.push((k, x));
        assert(v@.take(i + 1) =~= v@.take(i as int).push(v@[i as int]));
        assert(pairs_view(r@) =~= pairs_view(before).push((k@, x@)));
        assert(pairs_view(r@) =~= pairs_view(v@.take(i + 1)));
    }
    assert(v@.take(v.len() as int) =~= v@);
    r
}

/// One configured application.
#[derive(Debug, Clone)]
pub struct AppConfig {
    pub id: u128,
    pub name: String,
    pub working_dir: String,
    pub command: String,
    pub kind: AppKind,
    /// Local address of the application, to open in a browser and to probe.
    pub url: Option<String>,
    pub env_vars: Vec<(String, String)>,
    /// Relaunch the process when it crashes (non-zero exit that was not asked for).
    pub auto_restart: bool,
    /// Ascending launch order for "start all"; equal orders start together.
    pub start_order: i32,
}

/// An application configuration as plain values.
#[verifier::ext_equal]
pub struct AppConfigView {
    pub id: u128,
    pub name: Seq<char>,
    pub working_dir: Seq<char>,
    pub command: Seq<char>,
    pub kind: AppKind,
    pub url: Option<Seq<char>>,
    pub env_vars: Seq<(Seq<char>, Seq<char>)>,
    pub auto_restart: bool,
    pub start_order: i32,
}

impl View for AppConfig {
    type V = AppConfigView;

    open spec fn view(&self) -> AppConfigView {
        AppConfigView {
            id: self.id,
            name: self.name@,
            working_dir: self.working_dir@,
            command: self.command@,
            kind: self.kind,
            url: opt_view(self.url),
            env_vars: pairs_view(self.env_vars@),
            auto_restart: self.auto_restart,
            start_order: self.start_order,
        }
    }
}

impl Default for AppConfig {
    fn default() -> (r: AppConfig)
        ensures
            r@ == (AppConfigView {
                id: 0,
                name: Seq::empty(),
                working_dir: Seq::empty(),
                command: Seq::empty(),
                kind: AppKind::Raw,
                url: None,
                env_vars: Seq::empty(),
                auto_restart: false,
                start_order: 0,
            }),
    {
        let r = AppConfig {
            id: 0,
            name: String::new(),
            working_dir: String::new(),
            command: String::new(),
            kind: AppKind::Raw,
            url: None,
            env_vars: Vec::new(),
            auto_restart: false,
            start_order: 0,
        };
        assert(pairs_view(r.env_vars@) =~= Seq::empty());
        r
    }
}

impl AppConfig {
    /// A copy with the same plain values.
    pub fn duplicate(&self) -> (r: AppConfig)
        ensures
            r@ == self@,
    {
        AppConfig {
            id: self.id,
            name: self.name.clone(),
            working_dir: self.working_dir.clone(),
            command: self.command.clone(),
            kind: self.kind,
            url: clone_opt_string(&self.url),
            env_vars: clone_pairs(&self.env_vars),
            auto_restart: self.auto_restart,
            start_order: self.start_order,
        }
    }
}

/// What an import adds, replaces, and refuses.
#[derive(Debug, Clone)]
pub struct ImportSummary {
    pub to_add: Vec<String>,
    pub to_replace: Vec<String>,
    pub invalid: usize,
}

#[verifier::ext_equal]
pub struct ImportSummaryView {
    pub to_add: Seq<Seq<char>>,
    pub to_replace: Seq<Seq<char>>,
    pub invalid: nat,
}

impl View for ImportSummary {
    type V = ImportSummaryView;

    open spec fn view(&self) -> ImportSummaryView {
        ImportSummaryView {
            to_add: views(self.to_add@),
            to_replace: views(self.to_replace@),
            invalid: self.invalid as nat,
        }
    }
}

impl Default for ImportSummary {
    fn default() -> (r: ImportSummary)
        ensures
            r@ == (ImportSummaryView { to_add: Seq::empty(), to_replace: Seq::empty(), invalid: 0 }),
    {
        let r = ImportSummary { to_add: Vec::new(), to_replace: Vec::new(), invalid: 0 };
        assert(views(r.to_add@) =~= Seq::empty());
        assert(views(r.to_replace@) =~= Seq::empty());
        r
    }
}

/// The list of configured applications, in the order they were added.
#[derive(Debug, Clone)]
pub struct AppConfigList {
    pub apps: Vec<AppConfig>,
}

/// The plain values of each configuration.
pub open spec fn configs_view(v: Seq<AppConfig>) -> Seq<AppConfigView> {
    v.map_values(|a: AppConfig| a@)
}

impl View for AppConfigList {
    type V = Seq<AppConfigView>;

    open spec fn view(&self) -> Seq<AppConfigView> {
        configs_view(self.apps@)
    }
}

impl Default for AppConfigList {
    fn default() -> (r: AppConfigList)
        ensures
            r@ == Seq::<AppConfigView>::empty(),
    {
        let r = AppConfigList { apps: Vec::new() };
        assert(r@ =~= Seq::<AppConfigView>::empty());
        r
    }
}


/// Index of the first configuration with the given id, if any.
pub open spec fn first_with_id(apps: Seq<AppConfigView>, id: u128) -> Option<int> {
    if exists|i: int| 0 <= i < apps.len() && #[trigger] apps[i].id == id {
        Some(choose|i: int| 0 <= i < apps.len() && apps[i].id == id && forall|j: int| 0 <= j < i ==> #[trigger] apps[j].id != id)
    } else {
        None
    }
}

pub(crate) proof fn lemma_first_with_id(apps: Seq<AppConfigView>, id: u128, i: int)
    requires
        0 <= i < apps.len(),
        apps[i].id == id,
        forall|j: int| 0 <= j < i ==> #[trigger] apps[j].id != id,
    ensures
        first_with_id(apps, id) == Some(i),
{
    let k = choose|k: int| 0 <= k < apps.len() && apps[k].id == id && forall|j: int| 0 <= j < k ==> #[trigger] apps[j].id != id;
    assert(apps[i].id == id);
    if k < i {
        assert(apps[k].id != id);
    }
    if i < k {
        assert(apps[i].id != id);
    }
}

proof fn lemma_least_index_with_id(apps: Seq<AppConfigView>, id: u128, k: int)
    requires
        0 <= k < apps.len(),
        apps[k].id == id,
    ensures
        exists|i: int| 0 <= i < apps.len() && apps[i].id == id && forall|j: int| 0 <= j < i ==> #[trigger] apps[j].id != id,
    decreases k,
{
    if exists|j: int| 0 <= j < k && #[trigger] apps[j].id == id {
        let j = choose|j: int| 0 <= j < k && #[trigger] apps[j].id == id;
        lemma_least_index_with_id(apps, id, j);
    }
}

pub proof fn lemma_first_with_id_found(apps: Seq<AppConfigView>, id: u128)
    ensures
        first_with_id(apps, id) matches Some(i) ==> 0 <= i < apps.len() && apps[i].id == id
            && forall|j: int| 0 <= j < i ==> #[trigger] apps[j].id != id,
        first_with_id(apps, id) is None ==> forall|j: int| 0 <= j < apps.len() ==> #[trigger] apps[j].id != id,
{
    if exists|i: int| 0 <= i < apps.len() && #[trigger] apps[i].id == id {
        let k = choose|i: int| 0 <= i < apps.len() && #[trigger] apps[i].id == id;
        lemma_least_index_with_id(apps, id, k);
    }
}

/// The configuration as exported: its environment variables are dropped unless asked for.
pub open spec fn exported(a: AppConfigView, include_env_vars: bool) -> AppConfigView {
    if include_env_vars {
        a
    } else {
        AppConfigView { env_vars: Seq::empty(), ..a }
    }
}

/// Holds of the configurations whose id is not `id`.
pub open spec fn other_id(id: u128) -> spec_fn(AppConfigView) -> bool {
    |a: AppConfigView| a.id != id
}

/// Holds of the configurations whose id is among `ids`.
pub open spec fn id_among(ids: Seq<u128>) -> spec_fn(AppConfigView) -> bool {
    |a: AppConfigView| ids.contains(a.id)
}

pub open spec fn export_with(include_env_vars: bool) -> spec_fn(AppConfigView) -> AppConfigView {
    |a: AppConfigView| exported(a, include_env_vars)
}

/// The key on which imported applications are matched with existing ones:
/// the name, trimmed and lower-cased.
pub open spec fn name_key(name: Seq<char>) -> Seq<char> {
    lowercase(trim(name))
}

/// Index of the first configuration whose name key is `key`, if any.
pub open spec fn first_with_key(apps: Seq<AppConfigView>, key: Seq<char>) -> Option<int> {
    if exists|i: int| 0 <= i < apps.len() && #[trigger] name_key(apps[i].name) == key {
        Some(choose|i: int| 0 <= i < apps.len() && name_key(apps[i].name) == key && forall|j: int| 0 <= j < i ==> #[trigger] name_key(apps[j].name) != key)
    } else {
        None
    }
}

proof fn lemma_least_index_with_key(apps: Seq<AppConfigView>, key: Seq<char>, k: int)
    requires
        0 <= k < apps.len(),
        name_key(apps[k].name) == key,
    ensures
        exists|i: int| 0 <= i < apps.len() && name_key(apps[i].name) == key
            && forall|j: int| 0 <= j < i ==> #[trigger] name_key(apps[j].name) != key,
    decreases k,
{
    if exists|j: int| 0 <= j < k && #[trigger] name_key(apps[j].name) == key {
        let j = choose|j: int| 0 <= j < k && #[trigger] name_key(apps[j].name) == key;
        lemma_least_index_with_key(apps, key, j);
    }
}

pub proof fn lemma_first_with_key_found(apps: Seq<AppConfigView>, key: Seq<char>)
    ensures
        first_with_key(apps, key) matches Some(i) ==> 0 <= i < apps.len() && name_key(apps[i].name) == key
            && forall|j: int| 0 <= j < i ==> #[trigger] name_key(apps[j].name) != key,
        first_with_key(apps, key) is None ==> forall|j: int| 0 <= j < apps.len() ==> #[trigger] name_key(apps[j].name) != key,
{
    if exists|i: int| 0 <= i < apps.len() && #[trigger] name_key(apps[i].name) == key {
        let k = choose|i: int| 0 <= i < apps.len() && #[trigger] name_key(apps[i].name) == key;
        lemma_least_index_with_key(apps, key, k);
    }
}

/// One imported application merged into `apps`: a blank name is refused; a name
/// matching an existing application replaces it in place, keeping its id;
/// otherwise the application is appended with the id `fresh`.
pub open spec fn merge_step(
    state: (Seq<AppConfigView>, ImportSummaryView),
    app: AppConfigView,
    fresh: u128,
) -> (Seq<AppConfigView>, ImportSummaryView) {
    let (apps, summary) = state;
    let t = trim(app.name);
    if t.len() == 0 {
        (apps, ImportSummaryView { invalid: summary.invalid + 1, ..summary })
    } else {
        let renamed = AppConfigView { name: t, ..app };
        match first_with_key(apps, lowercase(t)) {
            Some(i) => (
                apps.update(i, AppConfigView { id: apps[i].id, ..renamed }),
                ImportSummaryView { to_replace: summary.to_replace.push(t), ..summary },
            ),
            None => (
                apps.push(AppConfigView { id: fresh, ..renamed }),
                ImportSummaryView { to_add: summary.to_add.push(t), ..summary },
            ),
        }
    }
}

/// All imported applications merged in order, the `k`-th with the id `fresh[k]`
/// should it be added.
pub open spec fn merge_all(
    state: (Seq<AppConfigView>, ImportSummaryView),
    incoming: Seq<AppConfigView>,
    fresh: Seq<u128>,
) -> (Seq<AppConfigView>, ImportSummaryView)
    decreases incoming.len(),
{
    if incoming.len() == 0 {
        state
    } else {
        merge_step(
            merge_all(state, incoming.drop_last(), fresh.drop_last()),
            incoming.last(),
            fresh[incoming.len() - 1],
        )
    }
}

/// The summary of an import that has not merged anything yet.
pub open spec fn empty_summary() -> ImportSummaryView {
    ImportSummaryView { to_add: Seq::empty(), to_replace: Seq::empty(), invalid: 0 }
}

/// Index of the first key equal to `key`, if any.
pub open spec fn first_key_index(keys: Seq<Seq<char>>, key: Seq<char>) -> Option<int> {
    if exists|i: int| 0 <= i < keys.len() && #[trigger] keys[i] == key {
        Some(choose|i: int| 0 <= i < keys.len() && keys[i] == key && forall|j: int| 0 <= j < i ==> #[trigger] keys[j] != key)
    } else {
        None
    }
}

proof fn lemma_least_key_index(keys: Seq<Seq<char>>, key: Seq<char>, k: int)
    requires
        0 <= k < keys.len(),
        keys[k] == key,
    ensures
        exists|i: int| 0 <= i < keys.len() && keys[i] == key && forall|j: int| 0 <= j < i ==> #[trigger] keys[j] != key,
    decreases k,
{
    if exists|j: int| 0 <= j < k && #[trigger] keys[j] == key {
        let j = choose|j: int| 0 <= j < k && #[trigger] keys[j] == key;
        lemma_least_key_index(keys, key, j);
    }
}

pub proof fn lemma_first_key_index_found(keys: Seq<Seq<char>>, key: Seq<char>)
    ensures
        first_key_index(keys, key) matches Some(i) ==> 0 <= i < keys.len() && keys[i] == key
            && forall|j: int| 0 <= j < i ==> #[trigger] keys[j] != key,
        first_key_index(keys, key) is None ==> forall|j: int| 0 <= j < keys.len() ==> #[trigger] keys[j] != key,
{
    if exists|i: int| 0 <= i < keys.len() && #[trigger] keys[i] == key {
        let k = choose|i: int| 0 <= i < keys.len() && #[trigger] keys[i] == key;
        lemma_least_key_index(keys, key, k);
    }
}

/// One imported application merged into `apps`, whose matching keys are
/// `keys` (one per application); `key` is the imported application's key. A
/// blank name is refused; an application with an equal key is replaced in
/// place, keeping its id and its key; otherwise the application is appended
/// with the id `fresh` and the key `key`.
pub open spec fn keyed_merge_step(
    state: (Seq<AppConfigView>, Seq<Seq<char>>, ImportSummaryView),
    app: AppConfigView,
    key: Seq<char>,
    fresh: u128,
) -> (Seq<AppConfigView>, Seq<Seq<char>>, ImportSummaryView) {
    let (apps, keys, summary) = state;
    let t = trim(app.name);
    if t.len() == 0 {
        (apps, keys, ImportSummaryView { invalid: summary.invalid + 1, ..summary })
    } else {
        let renamed = AppConfigView { name: t, ..app };
        match first_key_index(keys, key) {
            Some(i) => (
                apps.update(i, AppConfigView { id: apps[i].id, ..renamed }),
                keys,
                ImportSummaryView { to_replace: summary.to_replace.push(t), ..summary },
            ),
            None => (
                apps.push(AppConfigView { id: fresh, ..renamed }),
                keys.push(key),
                ImportSummaryView { to_add: summary.to_add.push(t), ..summary },
            ),
        }
    }
}

/// All imported applications merged in order by their keys, the `k`-th with
/// key `incoming_keys[k]` and, should it be added, the id `fresh[k]`.
pub open spec fn keyed_merge_all(
    state: (Seq<AppConfigView>, Seq<Seq<char>>, ImportSummaryView),
    incoming: Seq<AppConfigView>,
    incoming_keys: Seq<Seq<char>>,
    fresh: Seq<u128>,
) -> (Seq<AppConfigView>, Seq<Seq<char>>, ImportSummaryView)
    decreases incoming.len(),
{
    if incoming.len() == 0 {
        state
    } else {
        let n = incoming.len() - 1;
        keyed_merge_step(
            keyed_merge_all(state, incoming.drop_last(), incoming_keys.take(n), fresh.take(n)),
            incoming.last(),
            incoming_keys[n],
            fresh[n],
        )
    }
}

/// Whether `keys` holds the name key of each application, in order.
pub open spec fn keys_of(apps: Seq<AppConfigView>, keys: Seq<Seq<char>>) -> bool {
    keys.len() == apps.len() && forall|i: int| 0 <= i < apps.len() ==> #[trigger] keys[i] == name_key(apps[i].name)
}

proof fn lemma_keyed_step(
    apps: Seq<AppConfigView>,
    keys: Seq<Seq<char>>,
    summary: ImportSummaryView,
    app: AppConfigView,
    fresh: u128,
)
    requires
        keys_of(apps, keys),
    ensures
        ({
            let (a, k, s) = keyed_merge_step((apps, keys, summary), app, name_key(app.name), fresh);
            (a, s) == merge_step((apps, summary), app, fresh) && keys_of(a, k)
        }),
{
    let t = trim(app.name);
    let key = name_key(app.name);
    if t.len() > 0 {
        lemma_trim_idempotent(app.name);
        assert(name_key(t) == key);
        lemma_first_key_index_found(keys, key);
        lemma_first_with_key_found(apps, key);
        match first_key_index(keys, key) {
            Some(i) => {
                assert(name_key(apps[i].name) == key);
                match first_with_key(apps, key) {
                    Some(j) => {
                        if j < i {
                            assert(keys[j] == key);
                        }
                        if i < j {
                            assert(name_key(apps[i].name) != key);
                        }
                    },
                    None => {
                        assert(name_key(apps[i].name) != key);
                    },
                }
                let (a, k, s) = keyed_merge_step((apps, keys, summary), app, key, fresh);
                assert forall|x: int| 0 <= x < a.len() implies #[trigger] k[x] == name_key(a[x].name) by {
                    if x != i {
                        assert(a[x] == apps[x]);
                    }
                }
            },
            None => {
                match first_with_key(apps, key) {
                    Some(j) => {
                        assert(keys[j] == key);
                    },
                    None => {},
                }
                let (a, k, s) = keyed_merge_step((apps, keys, summary), app, key, fresh);
                assert forall|x: int| 0 <= x < a.len() implies #[trigger] k[x] == name_key(a[x].name) by {
                    if x < apps.len() {
                        assert(a[x] == apps[x]);
                        assert(k[x] == keys[x]);
                    }
                }
            },
        }
    }
}

/// Merging by keys that are the name keys of the applications is merging by
/// name: the same list and summary, and the keys stay the name keys.
pub proof fn lemma_keyed_merge_is_merge(
    apps: Seq<AppConfigView>,
    keys: Seq<Seq<char>>,
    summary: ImportSummaryView,
    incoming: Seq<AppConfigView>,
    incoming_keys: Seq<Seq<char>>,
    fresh: Seq<u128>,
)
    requires
        keys_of(apps, keys),
        incoming_keys.len() == incoming.len(),
        forall|k: int| 0 <= k < incoming.len() ==> #[trigger] incoming_keys[k] == name_key(incoming[k].name),
        fresh.len() == incoming.len(),
    ensures
        ({
            let (a, k, s) = keyed_merge_all((apps, keys, summary), incoming, incoming_keys, fresh);
            (a, s) == merge_all((apps, summary), incoming, fresh) && keys_of(a, k)
        }),
    decreases incoming.len(),
{
    if incoming.len() > 0 {
        let n = incoming.len() - 1;
        let ik = incoming_keys.take(n);
        assert forall|k: int| 0 <= k < incoming.drop_last().len() implies #[trigger] ik[k] == name_key(incoming.drop_last()[k].name) by {
            assert(ik[k] == incoming_keys[k]);
        }
        lemma_keyed_merge_is_merge(apps, keys, summary, incoming.drop_last(), ik, fresh.take(n));
        assert(fresh.take(n) =~= fresh.drop_last());
        let (a, k, s) = keyed_merge_all((apps, keys, summary), incoming.drop_last(), ik, fresh.take(n));
        lemma_keyed_step(a, k, s, incoming.last(), fresh[n]);
        assert(incoming_keys[n] == name_key(incoming.last().name));
    }
}

/// Whether `id` has the version and variant bits of a random (version 4) UUID.
pub open spec fn is_random_uuid(id: u128) -> bool {
    id & 0xF000_C000_0000_0000_0000u128 == 0x4000_8000_0000_0000_0000u128
}

/// A fresh application id: calls `uuid::Uuid::new_v4` and reads it as a `u128`.
/// Its value is random; what holds of every outcome is that it carries the
/// version 4 and RFC 4122 variant bits.
#[verifier::external_body]
pub(crate) fn new_app_id() -> (id: u128)
    ensures
        is_random_uuid(id),
{
    uuid::Uuid::new_v4().as_u128()
}

/// A random id is never the nil id.
pub proof fn lemma_random_uuid_not_nil(id: u128)
    requires
        is_random_uuid(id),
    ensures
        id != 0,
{
    assert(id & 0xF000_C000_0000_0000_0000u128 == 0x4000_8000_0000_0000_0000u128 ==> id != 0) by (bit_vector);
}

impl AppConfigList {
    pub fn add(&mut self, app: AppConfig)
        ensures
            final(self)@ == old(self)@.push(app@),
    {
        self.apps.push(app);
        assert(final(self)@ =~= old(self)@.push(app@));
    }

    /// Drops every application with the given id.
    pub fn remove(&mut self, id: u128)
        ensures
            final(self)@ == old(self)@.filter(other_id(id)),
    {
        let ghost pred = other_id(id);
        let mut kept: Vec<AppConfig> = Vec::new();
        let n = self.apps.len();
        proof {
            reveal_with_fuel(Seq::filter, 1);
            assert(self@.take(0) =~= Seq::<AppConfigView>::empty());
        }
        for i in 0..n
            invariant
                n == self.apps.len(),
                self@ == old(self)@,
                pred == other_id(id),
                configs_view(kept@) == self@.take(i as int).filter(pred),
        {
            let ghost before = configs_view(kept@);
            assert(self@.take(i + 1).drop_last() =~= self@.take(i as int));
            assert(self@[i as int] == self.apps@[i as int]@);
            if self.apps[i].id != id {
                let a = self.apps[i].duplicate();
                kept.push(a);
                assert(configs_view(kept@) =~= before.push(self@[i as int]));
            }
            assert(configs_view(kept@) == self@.take(i + 1).filter(pred)) by {
                reveal_with_fuel(Seq::filter, 2);
                let t = self@.take(i + 1);
                assert(t.drop_last() =~= self@.take(i as int));
                assert(t.last() == self@[i as int]);
                assert(t.len() > 0);
                assert(t.filter(pred) == if pred(t.last()) { t.drop_last().filter(pred).push(t.last()) } else { t.drop_last().filter(pred) });
            }
        }
        assert(self@.take(n as int) =~= self@);
        self.apps = kept;
    }

    /// Applies `mutate` to the first application with the given id, if there is one.
    #[verifier::spinoff_prover]
    #[verifier::rlimit(40)]
    pub fn update<F: FnOnce(AppConfig) -> AppConfig>(&mut self, id: u128, mutate: F)
        requires
            forall|a: AppConfig| a.id == id ==> #[trigger] mutate.requires((a,)),
        ensures
            first_with_id(old(self)@, id) is None ==> final(self)@ == old(self)@,
            first_with_id(old(self)@, id) is Some ==> exists|r: AppConfig|
                #[trigger] mutate.ensures((old(self).apps@[first_with_id(old(self)@, id)->0],), r)
                    && final(self)@ == old(self)@.update(first_with_id(old(self)@, id)->0, r@),
    {
        let n = self.apps.len();
        let mut i: usize = 0;
        while i < n
            invariant
                n == self.apps.len(),
                self.apps@ == old(self).apps@,
                i <= n,
                forall|a: AppConfig| a.id == id ==> #[trigger] mutate.requires((a,)),
                forall|j: int| 0 <= j < i ==> #[trigger] self.apps@[j].id != id,
            decreases n - i,
        {
            if self.apps[i].id == id {
                proof {
                    assert forall|j: int| 0 <= j < i implies #[trigger] old(self)@[j].id != id by {
                        assert(old(self)@[j].id == self.apps@[j].id);
                    }
                    lemma_first_with_id(old(self)@, id, i as int);
                }
                let app = self.apps.remove(i);
                assert(app == old(self).apps@[i as int]);
                let r = mutate(app);
                self.apps.insert(i, r);
                assert(self@ =~= old(self)@.update(i as int, r@));
                assert(mutate.ensures((old(self).apps@[first_with_id(old(self)@, id)->0],), r));
                return;
            }
            i = i + 1;
        }
        proof {
            if exists|j: int| 0 <= j < old(self)@.len() && #[trigger] old(self)@[j].id == id {
                let j = choose|j: int| 0 <= j < old(self)@.len() && #[trigger] old(self)@[j].id == id;
                assert(self.apps@[j].id != id);
            }
        }
    }

    /// Merges an imported list by matching keys: `keys[i]` is the key of
    /// `self.apps[i]`, `incoming_keys[k]` that of the `k`-th imported
    /// application, and `fresh[k]` the id it gets should it be added. A match
    /// is replaced in place and keeps its id and key; an unmatched application
    /// is appended with its fresh id, and its key is appended to `keys`; a
    /// blank name is refused and counted in `invalid`.
    pub fn merge_import_keyed(
        &mut self,
        incoming: AppConfigList,
        keys: &mut Vec<String>,
        incoming_keys: &Vec<String>,
        fresh: &Vec<u128>,
    ) -> (summary: ImportSummary)
        requires
            old(keys)@.len() == old(self)@.len(),
            incoming_keys@.len() == incoming@.len(),
            fresh@.len() == incoming@.len(),
        ensures
            (final(self)@, views(final(keys)@), summary@) == keyed_merge_all(
                (old(self)@, views(old(keys)@), empty_summary()),
                incoming@,
                views(incoming_keys@),
                fresh@,
            ),
    {
        let mut summary = ImportSummary::default();
        let n = incoming.apps.len();
        assert(incoming@.take(0) =~= Seq::<AppConfigView>::empty());
        for i in 0..n
            invariant
                n == incoming.apps.len() == incoming_keys@.len() == fresh@.len(),
                summary.invalid <= i,
                keys@.len() == self@.len(),
                (self@, views(keys@), summary@) == keyed_merge_all(
                    (old(self)@, views(old(keys)@), empty_summary()),
                    incoming@.take(i as int),
                    views(incoming_keys@).take(i as int),
                    fresh@.take(i as int),
                ),
        {
            let ghost state = (self@, views(keys@), summary@);
            let mut incoming_app = incoming.apps[i].duplicate();
            let ghost app = incoming@[i as int];
            let ghost key = views(incoming_keys@)[i as int];
            assert(incoming_app@ == app);
            let trimmed_name = trimmed(incoming_app.name.as_str());
            if trimmed_name.as_str().is_empty() {
                summary.invalid = summary.invalid + 1;
                assert(summary@ =~= ImportSummaryView { invalid: state.2.invalid + 1, ..state.2 });
            } else {
                incoming_app.name = trimmed_name.clone();
                let m = keys.len();
                let mut found: Option<usize> = None;
                let mut j: usize = 0;
                while j < m
                    invariant_except_break
                        found is None,
                    invariant
                        m == keys@.len() == self@.len(),
                        views(keys@) == state.1,
                        i < n == incoming_keys@.len(),
                        key == incoming_keys@[i as int]@,
                        j <= m,
                        forall|k: int| 0 <= k < j ==> #[trigger] state.1[k] != key,
                    ensures
                        found matches Some(f) ==> f < m && state.1[f as int] == key
                            && forall|k: int| 0 <= k < f ==> #[trigger] state.1[k] != key,
                        found is None ==> forall|k: int| 0 <= k < m ==> #[trigger] state.1[k] != key,
                    decreases m - j,
                {
                    assert(state.1[j as int] == keys@[j as int]@);
                    if keys[j] == incoming_keys[i] {
                        found = Some(j);
                        break;
                    }
                    j = j + 1;
                }
                proof {
                    lemma_first_key_index_found(state.1, key);
                }
                let ghost renamed = AppConfigView { name: trim(app.name), ..app };
                assert(incoming_app@ == renamed);
                match found {
                    Some(f) => {
                        proof {
                            match first_key_index(state.1, key) {
                                Some(g) => {
                                    if g < f {
                                        assert(state.1[g] != key);
                                    }
                                    if f < g {
                                        assert(state.1[f as int] != key);
                                    }
                                },
                                None => {
                                    assert(state.1[f as int] != key);
                                },
                            }
                        }
                        let existing_id = self.apps[f].id;
                        assert(existing_id == self@[f as int].id);
                        incoming_app.id = existing_id;
                        self.apps.remove(f);
                        self.apps.insert(f, incoming_app);
                        summary.to_replace.push(trimmed_name);
                        assert(self@ =~= state.0.update(f as int, AppConfigView { id: state.0[f as int].id, ..renamed }));
                        assert(summary@ =~= ImportSummaryView { to_replace: state.2.to_replace.push(trim(app.name)), ..state.2 });
                    },
                    None => {
                        proof {
                            match first_key_index(state.1, key) {
                                Some(g) => {
                                    assert(state.1[g] != key);
                                },
                                None => {},
                            }
                        }
                        let k = incoming_keys[i].clone();
                        proof {
                            lemma_views_push(keys@, k);
                        }
                        keys.push(k);
                        summary.to_add.push(trimmed_name);
                        incoming_app.id = fresh[i];
                        self.apps.push(incoming_app);
                        assert(self@ =~= state.0.push(AppConfigView { id: fresh@[i as int], ..renamed }));
                        assert(summary@ =~= ImportSummaryView { to_add: state.2.to_add.push(trim(app.name)), ..state.2 });
                    },
                }
            }
            proof {
                assert((self@, views(keys@), summary@) == keyed_merge_step(state, app, key, fresh@[i as int]));
                assert(incoming@.take(i + 1).drop_last() =~= incoming@.take(i as int));
                assert(incoming@.take(i + 1).last() == app);
                assert(views(incoming_keys@).take(i + 1).take(i as int) =~= views(incoming_keys@).take(i as int));
                assert(fresh@.take(i + 1).take(i as int) =~= fresh@.take(i as int));
            }
        }
        assert(incoming@.take(n as int) =~= incoming@);
        assert(views(incoming_keys@).take(n as int) =~= views(incoming_keys@));
        assert(fresh@.take(n as int) =~= fresh@);
        summary
    }

    /// Merges an imported list, matching applications by trimmed, lower-cased
    /// name: a match is replaced in place and keeps its id; an unmatched one is
    /// appended with a fresh random id (never the imported one, except by chance);
    /// a blank name is refused and counted in `invalid`. The names are
    /// lower-cased and the ids drawn here; `merge_import_keyed` does the rest.
    pub fn merge_import(&mut self, incoming: AppConfigList) -> (summary: ImportSummary)
        ensures
            exists|fresh: Seq<u128>|
                #![trigger merge_all((old(self)@, empty_summary()), incoming@, fresh)]
                fresh.len() == incoming@.len()
                && (forall|k: int| 0 <= k < fresh.len() ==> is_random_uuid(#[trigger] fresh[k]))
                && (final(self)@, summary@) == merge_all((old(self)@, empty_summary()), incoming@, fresh),
    {
        let mut keys: Vec<String> = Vec::new();
        let m = self.apps.len();
        for j in 0..m
            invariant
                m == self.apps.len(),
                self@ == old(self)@,
                keys@.len() == j,
                forall|k: int| 0 <= k < j ==> #[trigger] keys@[k]@ == name_key(self@[k].name),
        {
            assert(self@[j as int].name == self.apps@[j as int].name@);
            keys.push(to_lowercase(trimmed(self.apps[j].name.as_str()).as_str()));
        }
        let n = incoming.apps.len();
        let mut incoming_keys: Vec<String> = Vec::new();
        let mut fresh: Vec<u128> = Vec::new();
        for k in 0..n
            invariant
                n == incoming.apps.len(),
                incoming_keys@.len() == k,
                fresh@.len() == k,
                forall|x: int| 0 <= x < k ==> #[trigger] incoming_keys@[x]@ == name_key(incoming@[x].name),
                forall|x: int| 0 <= x < k ==> is_random_uuid(#[trigger] fresh@[x]),
        {
            assert(incoming@[k as int].name == incoming.apps@[k as int].name@);
            incoming_keys.push(to_lowercase(trimmed(incoming.apps[k].name.as_str()).as_str()));
            fresh.push(new_app_id());
        }
        let ghost before = self@;
        let ghost incoming_view = incoming@;
        proof {
            assert(keys_of(before, views(keys@)));
            assert forall|x: int| 0 <= x < incoming_view.len() implies #[trigger] views(incoming_keys@)[x] == name_key(incoming_view[x].name) by {
                assert(views(incoming_keys@)[x] == incoming_keys@[x]@);
            }
            lemma_keyed_merge_is_merge(before, views(keys@), empty_summary(), incoming_view, views(incoming_keys@), fresh@);
        }
        let summary = self.merge_import_keyed(incoming, &mut keys, &incoming_keys, &fresh);
        summary
    }

    /// The applications whose id is in `ids`, in list order, without their
    /// environment variables unless `include_env_vars`.
    pub fn export_subset(&self, ids: &[u128], include_env_vars: bool) -> (r: AppConfigList)
        ensures
            r@ == self@.filter(id_among(ids@)).map_values(export_with(include_env_vars)),
    {
        let ghost pred = id_among(ids@);
        let ghost f = export_with(include_env_vars);
        let mut out: Vec<AppConfig> = Vec::new();
        let n = self.apps.len();
        proof {
            reveal_with_fuel(Seq::filter, 1);
            assert(self@.take(0) =~= Seq::<AppConfigView>::empty());
        }
        for i in 0..n
            invariant
                n == self.apps.len(),
                pred == id_among(ids@),
                f == export_with(include_env_vars),
                configs_view(out@) == self@.take(i as int).filter(pred).map_values(f),
        {
            let ghost before = configs_view(out@);
            proof {
                reveal_with_fuel(Seq::filter, 1);
                assert(self@.take(i + 1).drop_last() =~= self@.take(i as int));
                assert(self@.take(i + 1).last() == self@[i as int]);
            }
            let mut found = false;
            let mut k: usize = 0;
            while k < ids.len()
                invariant
                    i < n == self.apps.len(),
                    k <= ids.len(),
                    found == (exists|j: int| 0 <= j < k && ids@[j] == self.apps@[i as int].id),
                decreases ids.len() - k,
            {
                if ids[k] == self.apps[i].id {
                    found = true;
                }
                k = k + 1;
            }
            assert(found == ids@.contains(self@[i as int].id));
            if found {
                let mut a = self.apps[i].duplicate();
                let ghost orig = self@[i as int];
                assert(orig == self.apps@[i as int]@);
                assert(a@ == orig);
                if !include_env_vars {
                    a.env_vars = Vec::new();
                    assert(pairs_view(a.env_vars@) =~= Seq::empty());
                    assert(a@ == AppConfigView { env_vars: Seq::empty(), ..orig });
                }
                assert(a@ == f(orig));
                out.push(a);
                let ghost pre = self@.take(i as int).filter(pred);
                assert(self@.take(i + 1).filter(pred) == pre.push(self@[i as int])) by {
                    reveal_with_fuel(Seq::filter, 1);
                    assert(self@.take(i + 1).drop_last() =~= self@.take(i as int));
                    assert(self@.take(i + 1).last() == self@[i as int]);
                }
                assert(configs_view(out@) =~= before.push(a@));
                assert(pre.push(self@[i as int]).map_values(f) =~= pre.map_values(f).push(f(self@[i as int])));
            } else {
                assert(self@.take(i + 1).filter(pred) == self@.take(i as int).filter(pred)) by {
                    reveal_with_fuel(Seq::filter, 1);
                    assert(self@.take(i + 1).drop_last() =~= self@.take(i as int));
                    assert(self@.take(i + 1).last() == self@[i as int]);
                }
            }
        }
        assert(self@.take(n as int) =~= self@);
        AppConfigList { apps: out }
    }
}

} // verus!
