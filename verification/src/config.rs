//! Configuration: deployment-specific settings (ssh host, remote log path,
//! editor, refresh interval) read from a TOML file, with built-in defaults for
//! every key, unknown keys refused, and the lookup order over candidate files.
//! Finding and reading the files is left to the caller, which describes each
//! candidate as a `FileProbe`.

use crate::model::opt_view;
use vstd::prelude::*;

verus! {

/// The settings.
#[derive(Debug)]
pub struct Config {
    /// ssh host alias to pull the log from (e.g. an entry in ~/.ssh/config).
    pub host: String,
    /// Absolute path to interactsh's interactions.jsonl on that host.
    pub remote_log: String,
    /// Editor for the `e` key; falls back to $EDITOR then `nvim` when unset.
    pub editor: Option<String>,
    /// Auto-refresh interval in seconds. 0 disables it. Default 60.
    pub refresh_secs: u64,
}

/// What a `Config` holds, as values.
pub struct ConfigView {
    pub host: Seq<char>,
    pub remote_log: Seq<char>,
    pub editor: Option<Seq<char>>,
    pub refresh_secs: u64,
}

impl View for Config {
    type V = ConfigView;

    open spec fn view(&self) -> ConfigView {
        ConfigView {
            host: self.host@,
            remote_log: self.remote_log@,
            editor: opt_view(self.editor),
            refresh_secs: self.refresh_secs,
        }
    }
}

/// The built-in settings: no host, interactsh's default log path, no editor,
/// refresh every 60 seconds.
pub open spec fn default_config() -> ConfigView {
    ConfigView {
        host: seq![],
        remote_log: "/var/log/interactsh/interactions.jsonl"@,
        editor: None,
        refresh_secs: 60,
    }
}

impl Default for Config {
    /// The built-in settings.
    fn default() -> (r: Config)
        ensures
            r@ == default_config(),
    {
        Config {
            host: String::new(),
            remote_log: String::from_str("/var/log/interactsh/interactions.jsonl"),
            editor: None,
            refresh_secs: 60,
        }
    }
}

/// Why a configuration text is refused.
#[derive(Debug, PartialEq, Eq)]
pub enum TomlProblem {
    /// Not a TOML document.
    Syntax,
    /// A key that the settings do not have.
    UnknownField(String),
    /// A key whose value has the wrong type (or a negative interval).
    WrongType(String),
}

/// What a `TomlProblem` holds, as values.
pub enum TomlProblemView {
    Syntax,
    UnknownField(Seq<char>),
    WrongType(Seq<char>),
}

impl View for TomlProblem {
    type V = TomlProblemView;

    open spec fn view(&self) -> TomlProblemView {
        match self {
            TomlProblem::Syntax => TomlProblemView::Syntax,
            TomlProblem::UnknownField(k) => TomlProblemView::UnknownField(k@),
            TomlProblem::WrongType(k) => TomlProblemView::WrongType(k@),
        }
    }
}

/// A top-level entry of a TOML document: its key, its string value when it is a
/// string, its integer value when it is an integer.
pub type TomlEntry = (Seq<char>, Option<Seq<char>>, Option<i64>);

/// What `toml::from_str::<toml::Table>` gives for this text, as its entries in
/// the table's iteration order (the order of the document, as toml keeps it
/// with `preserve_order`), or `None` where toml refuses the text.
pub uninterp spec fn toml_entries(text: Seq<char>) -> Option<Seq<TomlEntry>>;

/// An entry as values.
pub open spec fn entry_view(e: (String, Option<String>, Option<i64>)) -> TomlEntry {
    (e.0@, opt_view(e.1), e.2)
}

/// toml's `from_str::<toml::Table>`, with each entry's value told apart as a
/// string, an integer or anything else; the result is named, not stated.
#[verifier::external_body]
fn parse_toml_table(text: &str) -> (r: Option<Vec<(String, Option<String>, Option<i64>)>>)
    ensures
        match r {
            Some(v) => toml_entries(text@) == Some(v@.map_values(|e: (String, Option<String>, Option<i64>)| entry_view(e))),
            None => toml_entries(text@) is None,
        },
{
    let table: toml::Table = toml::from_str(text).ok()?;
    let mut out = Vec::new();
    for (k, v) in table {
        out.push(match v {
            toml::Value::String(s) => (k, Some(s), None),
            toml::Value::Integer(i) => (k, None, Some(i)),
            _ => (k, None, None),
        });
    }
    Some(out)
}

/// The settings `c` after reading one entry, or the problem with it.
pub open spec fn apply_entry(c: ConfigView, e: TomlEntry) -> Result<ConfigView, TomlProblemView> {
    let (k, s, i) = e;
    if k == "host"@ {
        match s {
            Some(v) => Ok(ConfigView { host: v, ..c }),
            None => Err(TomlProblemView::WrongType(k)),
        }
    } else if k == "remote_log"@ {
        match s {
            Some(v) => Ok(ConfigView { remote_log: v, ..c }),
            None => Err(TomlProblemView::WrongType(k)),
        }
    } else if k == "editor"@ {
        match s {
            Some(v) => Ok(ConfigView { editor: Some(v), ..c }),
            None => Err(TomlProblemView::WrongType(k)),
        }
    } else if k == "refresh_secs"@ {
        match i {
            Some(n) => if n >= 0 {
                Ok(ConfigView { refresh_secs: n as u64, ..c })
            } else {
                Err(TomlProblemView::WrongType(k))
            },
            None => Err(TomlProblemView::WrongType(k)),
        }
    } else {
        Err(TomlProblemView::UnknownField(k))
    }
}

/// The settings that the entries give, starting from the defaults, or the
/// problem with the first entry that has one.
pub open spec fn apply_entries(es: Seq<TomlEntry>) -> Result<ConfigView, TomlProblemView>
    decreases es.len(),
{
    if es.len() == 0 {
        Ok(default_config())
    } else {
        match apply_entries(es.drop_last()) {
            Ok(c) => apply_entry(c, es.last()),
            Err(p) => Err(p),
        }
    }
}

/// Once an entry is refused, later entries do not change the outcome.
proof fn lemma_refusal_sticks(es: Seq<TomlEntry>, k: int)
    requires
        0 <= k <= es.len(),
        apply_entries(es.take(k)) is Err,
    ensures
        apply_entries(es) == apply_entries(es.take(k)),
    decreases es.len() - k,
{
    if k == es.len() {
        assert(es.take(k) =~= es);
    } else {
        assert(es.take(k + 1).drop_last() =~= es.take(k));
        assert(apply_entries(es.take(k + 1)) == apply_entries(es.take(k)));
        lemma_refusal_sticks(es, k + 1);
    }
}

/// Whether `k` is one of the four keys of the settings.
pub open spec fn known_key(k: Seq<char>) -> bool {
    k == "host"@ || k == "remote_log"@ || k == "editor"@ || k == "refresh_secs"@
}

/// Every key is optional: a key that no entry names keeps its built-in value.
/// A key outside the four is refused.
pub proof fn lemma_entries_defaults(es: Seq<TomlEntry>)
    ensures
        (forall|j: int| 0 <= j < es.len() ==> (#[trigger] es[j]).0 != "host"@) ==> (
        apply_entries(es) matches Ok(c) ==> c.host == default_config().host),
        (forall|j: int| 0 <= j < es.len() ==> (#[trigger] es[j]).0 != "remote_log"@) ==> (
        apply_entries(es) matches Ok(c) ==> c.remote_log == default_config().remote_log),
        (forall|j: int| 0 <= j < es.len() ==> (#[trigger] es[j]).0 != "editor"@) ==> (
        apply_entries(es) matches Ok(c) ==> c.editor == default_config().editor),
        (forall|j: int| 0 <= j < es.len() ==> (#[trigger] es[j]).0 != "refresh_secs"@) ==> (
        apply_entries(es) matches Ok(c) ==> c.refresh_secs == default_config().refresh_secs),
        (exists|j: int| 0 <= j < es.len() && !known_key((#[trigger] es[j]).0)) ==> apply_entries(
            es,
        ) is Err,
    decreases es.len(),
{
    if es.len() > 0 {
        let d = es.drop_last();
        lemma_entries_defaults(d);
        assert forall|j: int| 0 <= j < d.len() implies #[trigger] d[j] == es[j] by {}
        if exists|j: int| 0 <= j < es.len() && !known_key((#[trigger] es[j]).0) {
            let j = choose|j: int| 0 <= j < es.len() && !known_key((#[trigger] es[j]).0);
            if j < d.len() {
                assert(d[j] == es[j]);
            } else {
                assert(es[j] == es.last());
            }
        }
        if forall|j: int| 0 <= j < es.len() ==> (#[trigger] es[j]).0 != "host"@ {
            assert(es[es.len() - 1] == es.last());
        }
        if forall|j: int| 0 <= j < es.len() ==> (#[trigger] es[j]).0 != "remote_log"@ {
            assert(es[es.len() - 1] == es.last());
        }
        if forall|j: int| 0 <= j < es.len() ==> (#[trigger] es[j]).0 != "editor"@ {
            assert(es[es.len() - 1] == es.last());
        }
        if forall|j: int| 0 <= j < es.len() ==> (#[trigger] es[j]).0 != "refresh_secs"@ {
            assert(es[es.len() - 1] == es.last());
        }
    }
}

/// The settings that a configuration text gives (keys absent from it keep their
/// defaults), or why it is refused.
pub open spec fn config_of_toml(text: Seq<char>) -> Result<ConfigView, TomlProblemView> {
    match toml_entries(text) {
        Some(es) => apply_entries(es),
        None => Err(TomlProblemView::Syntax),
    }
}

/// The settings as a result view.
pub open spec fn parsed_view(r: Result<Config, TomlProblem>) -> Result<ConfigView, TomlProblemView> {
    match r {
        Ok(c) => Ok(c@),
        Err(p) => Err(p@),
    }
}

/// Whether a string is exactly the literal `lit`.
fn is_key(s: &String, lit: &str) -> (r: bool)
    ensures
        r == (s@ == lit@),
{
    crate::text::chars_eq(&crate::text::chars_of(s.as_str()), &crate::text::chars_of(lit))
}

impl Config {
    /// The settings that a TOML text gives (see `config_of_toml`).
    pub fn from_toml(text: &str) -> (r: Result<Config, TomlProblem>)
        ensures
            parsed_view(r) == config_of_toml(text@),
    {
        let entries = match parse_toml_table(text) {
            Some(es) => es,
            None => return Err(TomlProblem::Syntax),
        };
        let ghost ev = entries@.map_values(|e: (String, Option<String>, Option<i64>)| entry_view(e));
        let mut c = Config::default();
        let mut k: usize = 0;
        while k < entries.len()
            invariant
                k <= entries@.len(),
                ev == entries@.map_values(|e: (String, Option<String>, Option<i64>)| entry_view(e)),
                toml_entries(text@) == Some(ev),
                apply_entries(ev.take(k as int)) == Ok::<ConfigView, TomlProblemView>(c@),
            decreases entries@.len() - k,
        {
            let e = &entries[k];
            assert(ev.take(k + 1).drop_last() =~= ev.take(k as int));
            assert(ev.take(k + 1).last() == entry_view(*e));
            proof {
                if apply_entries(ev.take(k + 1)) is Err {
                    lemma_refusal_sticks(ev, k + 1);
                }
            }
            if is_key(&e.0, "host") {
                match &e.1 {
                    Some(v) => c.host = v.clone(),
                    None => return Err(TomlProblem::WrongType(e.0.clone())),
                }
            } else if is_key(&e.0, "remote_log") {
                match &e.1 {
                    Some(v) => c.remote_log = v.clone(),
                    None => return Err(TomlProblem::WrongType(e.0.clone())),
                }
            } else if is_key(&e.0, "editor") {
                match &e.1 {
                    Some(v) => c.editor = Some(v.clone()),
                    None => return Err(TomlProblem::WrongType(e.0.clone())),
                }
            } else if is_key(&e.0, "refresh_secs") {
                match e.2 {
                    Some(n) => {
                        if n >= 0 {
                            c.refresh_secs = n as u64;
                        } else {
                            return Err(TomlProblem::WrongType(e.0.clone()));
                        }
                    },
                    None => return Err(TomlProblem::WrongType(e.0.clone())),
                }
            } else {
                return Err(TomlProblem::UnknownField(e.0.clone()));
            }
            k = k + 1;
        }
        assert(ev.take(k as int) =~= ev);
        Ok(c)
    }
}


/// What the caller found at a candidate configuration path.
#[derive(Debug)]
pub enum Probe {
    /// No file there.
    Missing,
    /// A file that could not be read.
    Unreadable,
    /// A file with this text.
    Text(String),
}

/// A candidate configuration path and what was found there.
#[derive(Debug)]
pub struct FileProbe {
    pub path: String,
    pub probe: Probe,
}

/// What a `FileProbe` holds, as values: the path, and the text when a file
/// was read (`Some(None)` for a file that could not be read, `None` for none).
pub struct FileProbeView {
    pub path: Seq<char>,
    pub found: Option<Option<Seq<char>>>,
}

impl View for FileProbe {
    type V = FileProbeView;

    open spec fn view(&self) -> FileProbeView {
        FileProbeView {
            path: self.path@,
            found: match self.probe {
                Probe::Missing => None,
                Probe::Unreadable => Some(None),
                Probe::Text(t) => Some(Some(t@)),
            },
        }
    }
}

/// Why no settings could be loaded, with the path concerned.
#[derive(Debug)]
pub enum ConfigError {
    /// The explicitly given file does not exist.
    NotFound(String),
    /// The file could not be read.
    Unreadable(String),
    /// The file's text is refused.
    Invalid(String, TomlProblem),
}

/// What a `ConfigError` holds, as values.
pub enum ConfigErrorView {
    NotFound(Seq<char>),
    Unreadable(Seq<char>),
    Invalid(Seq<char>, TomlProblemView),
}

impl View for ConfigError {
    type V = ConfigErrorView;

    open spec fn view(&self) -> ConfigErrorView {
        match self {
            ConfigError::NotFound(p) => ConfigErrorView::NotFound(p@),
            ConfigError::Unreadable(p) => ConfigErrorView::Unreadable(p@),
            ConfigError::Invalid(p, e) => ConfigErrorView::Invalid(p@, e@),
        }
    }
}

/// The settings from a file that exists, with its path, or why not.
pub open spec fn read_probe(p: FileProbeView) -> Result<(ConfigView, Option<Seq<char>>), ConfigErrorView> {
    match p.found {
        Some(Some(t)) => match config_of_toml(t) {
            Ok(c) => Ok((c, Some(p.path))),
            Err(e) => Err(ConfigErrorView::Invalid(p.path, e)),
        },
        _ => Err(ConfigErrorView::Unreadable(p.path)),
    }
}

/// The first candidate at which a file exists, if any.
pub open spec fn first_found(cs: Seq<FileProbeView>) -> Option<int>
    decreases cs.len(),
{
    if cs.len() == 0 {
        None
    } else if cs[0].found is Some {
        Some(0)
    } else {
        match first_found(cs.skip(1)) {
            Some(k) => Some(k + 1),
            None => None,
        }
    }
}

/// The lookup order: an explicitly given path must hold a file; otherwise the
/// first candidate that holds a file is read; with none, the built-in settings
/// apply and no path is reported.
pub open spec fn load_result(explicit: Option<FileProbeView>, cs: Seq<FileProbeView>) -> Result<
    (ConfigView, Option<Seq<char>>),
    ConfigErrorView,
> {
    match explicit {
        Some(p) => if p.found is None {
            Err(ConfigErrorView::NotFound(p.path))
        } else {
            read_probe(p)
        },
        None => match first_found(cs) {
            Some(k) => read_probe(cs[k]),
            None => Ok((default_config(), None)),
        },
    }
}

/// An optional probe as values.
pub open spec fn opt_probe_view(p: Option<FileProbe>) -> Option<FileProbeView> {
    match p {
        Some(q) => Some(q@),
        None => None,
    }
}

/// A load result as values.
pub open spec fn load_view(r: Result<(Config, Option<String>), ConfigError>) -> Result<
    (ConfigView, Option<Seq<char>>),
    ConfigErrorView,
> {
    match r {
        Ok((c, p)) => Ok((c@, opt_view(p))),
        Err(e) => Err(e@),
    }
}

proof fn lemma_first_found_at(cs: Seq<FileProbeView>, k: int)
    requires
        0 <= k <= cs.len(),
        forall|j: int| 0 <= j < k ==> (#[trigger] cs[j]).found is None,
        k == cs.len() || cs[k].found is Some,
    ensures
        first_found(cs) == (if k == cs.len() { None } else { Some(k) }),
    decreases k,
{
    if k > 0 {
        assert forall|j: int| 0 <= j < k - 1 implies (#[trigger] cs.skip(1)[j]).found is None by {
            assert(cs.skip(1)[j] == cs[j + 1]);
        }
        if k < cs.len() {
            assert(cs.skip(1)[k - 1] == cs[k]);
        }
        lemma_first_found_at(cs.skip(1), k - 1);
    }
}

/// The settings from a probed file that exists.
fn read_found(p: FileProbe) -> (r: Result<(Config, Option<String>), ConfigError>)
    ensures
        load_view(r) == read_probe(p@),
{
    match p.probe {
        Probe::Text(t) => match Config::from_toml(t.as_str()) {
            Ok(c) => Ok((c, Some(p.path))),
            Err(e) => Err(ConfigError::Invalid(p.path, e)),
        },
        _ => Err(ConfigError::Unreadable(p.path)),
    }
}

impl Config {
    /// Loads the settings, returning them with the path they came from (`None`
    /// for the built-in settings). An explicit path without a file is an error;
    /// candidates without a file are passed over.
    pub fn load(explicit: Option<FileProbe>, candidates: Vec<FileProbe>) -> (r: Result<(Config, Option<String>), ConfigError>)
        ensures
            load_view(r) == load_result(opt_probe_view(explicit), candidates@.map_values(|p: FileProbe| p@)),
    {
        let ghost ex = opt_probe_view(explicit);
        let ghost cs0 = candidates@.map_values(|p: FileProbe| p@);
        match explicit {
            Some(p) => {
                if let Probe::Missing = p.probe {
                    return Err(ConfigError::NotFound(p.path));
                }
                return read_found(p);
            },
            None => {},
        }
        let ghost cs = candidates@.map_values(|p: FileProbe| p@);
        let mut rest = candidates;
        let mut k: usize = 0;
        let n = rest.len();
        assert(cs.len() == n);
        // Walk the candidates front to back by taking them from a reversed list.
        let mut rev: Vec<FileProbe> = Vec::new();
        while rest.len() > 0
            invariant
                cs == rest@.map_values(|p: FileProbe| p@) + rev@.map_values(|p: FileProbe| p@).reverse(),
                cs == cs0,
                cs0 == candidates@.map_values(|p: FileProbe| p@),
                ex is None,
                ex == opt_probe_view(explicit),
            decreases rest@.len(),
        {
            let ghost a = rest@.map_values(|p: FileProbe| p@);
            let ghost b = rev@.map_values(|p: FileProbe| p@);
            let p = rest.pop().unwrap();
            rev.push(p);
            proof {
                assert(rest@.map_values(|p: FileProbe| p@) =~= a.drop_last());
                assert(rev@.map_values(|p: FileProbe| p@) =~= b.push(a.last()));
                assert(rev@.map_values(|p: FileProbe| p@).reverse() =~= seq![a.last()] + b.reverse());
                assert(cs =~= rest@.map_values(|p: FileProbe| p@) + rev@.map_values(|p: FileProbe| p@).reverse());
            }
        }
        assert(cs =~= rev@.map_values(|p: FileProbe| p@).reverse());
        while rev.len() > 0
            invariant
                cs == cs0,
                cs0 == candidates@.map_values(|p: FileProbe| p@),
                ex is None,
                ex == opt_probe_view(explicit),
                cs.len() == n,
                k + rev@.len() == cs.len(),
                rev@.map_values(|p: FileProbe| p@).reverse() == cs.skip(k as int),
                forall|j: int| 0 <= j < k ==> (#[trigger] cs[j]).found is None,
            decreases rev@.len(),
        {
            let ghost b = rev@.map_values(|p: FileProbe| p@);
            let p = rev.pop().unwrap();
            proof {
                assert(b.reverse()[0] == b.last());
                assert(cs.skip(k as int)[0] == cs[k as int]);
                assert(p@ == cs[k as int]);
                assert(rev@.map_values(|p: FileProbe| p@) =~= b.drop_last());
                assert(b.drop_last().reverse() =~= b.reverse().skip(1));
                assert(cs.skip(k as int).skip(1) =~= cs.skip(k + 1));
            }
            match p.probe {
                Probe::Missing => {},
                _ => {
                    proof {
                        lemma_first_found_at(cs, k as int);
                    }
                    return read_found(p);
                },
            }
            k = k + 1;
        }
        proof {
            lemma_first_found_at(cs, k as int);
        }
        Ok((Config::default(), None))
    }
}


/// The ssh host to use: the one given on the command line, else the configured one.
pub fn effective_host(cli: Option<String>, configured: &String) -> (r: String)
    ensures
        r@ == (match cli {
            Some(h) => h@,
            None => configured@,
        }),
{
    match cli {
        Some(h) => h,
        None => configured.clone(),
    }
}

/// The auto-refresh interval to use: none when reading a local file or the cached
/// copy (a refresh fetches over ssh), else the configured one.
pub fn effective_refresh(local_file: bool, cached: bool, configured: u64) -> (r: u64)
    ensures
        r == (if local_file || cached {
            0
        } else {
            configured
        }),
{
    if local_file || cached {
        0
    } else {
        configured
    }
}

} // verus!
