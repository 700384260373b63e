//! The remediator's part of the configuration file.

use crate::config::{config_of, number_or, or_number, or_text, text_or, Config};
use crate::error::{error_message, Error, ErrorView};
use crate::json::{
    both, field_views, json_array, name_views, opt_bool, opt_number, opt_string,
    opt_view, read_array, read_record, read_toml, record, string_field, take_opt_bool,
    take_opt_number, take_opt_string, take_string, toml_as_json,
};
use crate::text::text_views;
use vstd::prelude::*;

verus! {

/// A trigger: the devices that `expr` selects are considered stuck. `name` is
/// the reason that the metrics give.
#[derive(Debug, Clone)]
pub struct Rule {
    pub name: String,
    pub expr: String,
}

/// The configuration of the remediator.
#[derive(Debug)]
pub struct RemediatorConfig {
    pub prometheus_url: String,
    pub poll_interval_secs: u64,
    /// How long a device is left alone after a reboot.
    pub cooldown_secs: u64,
    /// How often a device is rebooted in one day at most.
    pub max_reboots_per_day: u32,
    pub listen: String,
    /// Whether reboots are only announced.
    pub dry_run: bool,
    /// Whether each decision is logged.
    pub verbose: bool,
    pub rule: Vec<Rule>,
}

/// A [`Rule`] with its texts as character sequences.
#[verifier::ext_equal]
pub struct RuleView {
    pub name: Seq<char>,
    pub expr: Seq<char>,
}

impl View for Rule {
    type V = RuleView;

    open spec fn view(&self) -> RuleView {
        RuleView { name: self.name@, expr: self.expr@ }
    }
}

/// The rules by their views.
pub open spec fn rule_views(rules: Seq<Rule>) -> Seq<RuleView> {
    rules.map_values(|rule: Rule| rule@)
}

/// A [`RemediatorConfig`] with its texts as character sequences.
#[verifier::ext_equal]
pub struct RemediatorView {
    pub prometheus_url: Seq<char>,
    pub poll_interval_secs: u64,
    pub cooldown_secs: u64,
    pub max_reboots_per_day: u32,
    pub listen: Seq<char>,
    pub dry_run: bool,
    pub verbose: bool,
    pub rule: Seq<RuleView>,
}

impl View for RemediatorConfig {
    type V = RemediatorView;

    open spec fn view(&self) -> RemediatorView {
        RemediatorView {
            prometheus_url: self.prometheus_url@,
            poll_interval_secs: self.poll_interval_secs,
            cooldown_secs: self.cooldown_secs,
            max_reboots_per_day: self.max_reboots_per_day,
            listen: self.listen@,
            dry_run: self.dry_run,
            verbose: self.verbose,
            rule: rule_views(self.rule@),
        }
    }
}

/// What the file says of the remediator: what it leaves out is missing.
pub struct RemediatorFields {
    pub prometheus_url: String,
    pub poll_interval_secs: Option<u64>,
    pub cooldown_secs: Option<u64>,
    pub max_reboots_per_day: Option<u32>,
    pub listen: Option<String>,
    pub dry_run: Option<bool>,
    pub verbose: Option<bool>,
    pub rule: Vec<Rule>,
}

/// [`RemediatorFields`] with their texts as character sequences.
#[verifier::ext_equal]
pub struct RemediatorFieldsView {
    pub prometheus_url: Seq<char>,
    pub poll_interval_secs: Option<u64>,
    pub cooldown_secs: Option<u64>,
    pub max_reboots_per_day: Option<u32>,
    pub listen: Option<Seq<char>>,
    pub dry_run: Option<bool>,
    pub verbose: Option<bool>,
    pub rule: Seq<RuleView>,
}

impl View for RemediatorFields {
    type V = RemediatorFieldsView;

    open spec fn view(&self) -> RemediatorFieldsView {
        RemediatorFieldsView {
            prometheus_url: self.prometheus_url@,
            poll_interval_secs: self.poll_interval_secs,
            cooldown_secs: self.cooldown_secs,
            max_reboots_per_day: self.max_reboots_per_day,
            listen: opt_view(self.listen),
            dry_run: self.dry_run,
            verbose: self.verbose,
            rule: rule_views(self.rule@),
        }
    }
}

/// The configuration that the file gives: what it leaves out has its default.
/// Reboots are performed only where the file says so.
pub open spec fn remediator_defaults(fields: RemediatorFieldsView) -> RemediatorView {
    RemediatorView {
        prometheus_url: fields.prometheus_url,
        poll_interval_secs: or_number(fields.poll_interval_secs, 60),
        cooldown_secs: or_number(fields.cooldown_secs, 1800),
        max_reboots_per_day: match fields.max_reboots_per_day {
            Some(n) => n,
            None => 4,
        },
        listen: or_text(fields.listen, "0.0.0.0:9421"@),
        dry_run: fields.dry_run != Some(false),
        verbose: fields.verbose == Some(true),
        rule: fields.rule,
    }
}

impl RemediatorConfig {
    /// The configuration that the file gives: what it leaves out has its
    /// default.
    pub fn from_fields(fields: RemediatorFields) -> (r: RemediatorConfig)
        ensures
            r@ == remediator_defaults(fields@),
    {
        RemediatorConfig {
            prometheus_url: fields.prometheus_url,
            poll_interval_secs: number_or(fields.poll_interval_secs, 60),
            cooldown_secs: number_or(fields.cooldown_secs, 1800),
            max_reboots_per_day: match fields.max_reboots_per_day {
                Some(n) => n,
                None => 4,
            },
            listen: text_or(fields.listen, "0.0.0.0:9421"),
            dry_run: match fields.dry_run {
                Some(dry_run) => dry_run,
                None => true,
            },
            verbose: match fields.verbose {
                Some(verbose) => verbose,
                None => false,
            },
            rule: fields.rule,
        }
    }
}

/// A number of 32 bits, where the field is there.
pub open spec fn opt_u32(field: Option<Seq<char>>) -> Option<Option<u32>> {
    match opt_number(field) {
        None => None,
        Some(None) => Some(None),
        Some(Some(n)) => if n <= u32::MAX {
            Some(Some(n as u32))
        } else {
            None
        },
    }
}

fn take_opt_u32(field: &Option<String>) -> (r: Option<Option<u32>>)
    ensures
        r == opt_u32(opt_view(*field)),
{
    match take_opt_number(field)? {
        None => Some(None),
        Some(n) => if n <= u32::MAX as u64 {
            Some(Some(n as u32))
        } else {
            None
        },
    }
}

/// The rule that a JSON text writes.
pub open spec fn rule_of(text: Seq<char>) -> Option<RuleView> {
    match record(text, seq!["name"@, "expr"@], 2, true) {
        None => None,
        Some(f) => match both(string_field(f[0]), string_field(f[1])) {
            None => None,
            Some((name, expr)) => Some(RuleView { name, expr }),
        },
    }
}

/// The rules that JSON texts write, where all of them write one.
pub open spec fn rules_of(items: Seq<Seq<char>>) -> Option<Seq<RuleView>>
    decreases items.len(),
{
    if items.len() == 0 {
        Some(Seq::empty())
    } else {
        match rules_of(items.drop_last()) {
            None => None,
            Some(before) => match rule_of(items.last()) {
                None => None,
                Some(rule) => Some(before.push(rule)),
            },
        }
    }
}

/// The rules of a field, none where it is not there.
pub open spec fn rule_list(field: Option<Seq<char>>) -> Option<Seq<RuleView>> {
    match field {
        None => Some(Seq::empty()),
        Some(text) => match json_array(text) {
            None => None,
            Some(items) => rules_of(items),
        },
    }
}

/// The fields of the remediator's configuration.
pub open spec fn remediator_names() -> Seq<Seq<char>> {
    seq![
        "prometheus_url"@,
        "poll_interval_secs"@,
        "cooldown_secs"@,
        "max_reboots_per_day"@,
        "listen"@,
        "dry_run"@,
        "verbose"@,
        "rule"@,
    ]
}

/// What the remediator's configuration in JSON says.
pub open spec fn remediator_fields(json: Seq<char>) -> Option<RemediatorFieldsView> {
    match record(json, remediator_names(), 1, true) {
        None => None,
        Some(f) => match both(
            string_field(f[0]),
            both(
                opt_number(f[1]),
                both(
                    opt_number(f[2]),
                    both(
                        opt_u32(f[3]),
                        both(
                            opt_string(f[4]),
                            both(opt_bool(f[5]), both(opt_bool(f[6]), rule_list(f[7]))),
                        ),
                    ),
                ),
            ),
        ) {
            None => None,
            Some((url, (poll, (cool, (max, (listen, (dry_run, (verbose, rule)))))))) => Some(
                RemediatorFieldsView {
                    prometheus_url: url,
                    poll_interval_secs: poll,
                    cooldown_secs: cool,
                    max_reboots_per_day: max,
                    listen,
                    dry_run,
                    verbose,
                    rule,
                },
            ),
        },
    }
}

/// The remediator's configuration that a JSON document holds under `remediator`.
pub open spec fn remediator_in(json: Seq<char>) -> Option<RemediatorView> {
    match record(json, seq!["remediator"@], 1, true) {
        None => None,
        Some(f) => match f[0] {
            None => None,
            Some(text) => match remediator_fields(text) {
                None => None,
                Some(fields) => Some(remediator_defaults(fields)),
            },
        },
    }
}

/// What is wrong with a configuration file.
#[derive(Debug)]
pub enum LoadError {
    /// What is wrong with the devices and how to reach them.
    Config(Error),
    /// What is wrong with the table `remediator`, as the parser says it.
    Toml(String),
}

/// A [`LoadError`] with its text as a character sequence.
#[verifier::ext_equal]
pub enum LoadErrorView {
    Config(ErrorView),
    Toml(Seq<char>),
}

impl View for LoadError {
    type V = LoadErrorView;

    open spec fn view(&self) -> LoadErrorView {
        match *self {
            LoadError::Config(e) => LoadErrorView::Config(e@),
            LoadError::Toml(text) => LoadErrorView::Toml(text@),
        }
    }
}

impl LoadErrorView {
    /// The error in words.
    pub open spec fn text(self) -> Seq<char> {
        match self {
            LoadErrorView::Config(e) => error_message(e),
            LoadErrorView::Toml(text) => text,
        }
    }
}

impl LoadError {
    /// The error in words.
    pub fn to_string(&self) -> (r: String)
        ensures
            r@ == self@.text(),
    {
        match self {
            LoadError::Config(e) => e.to_string(),
            LoadError::Toml(text) => text.as_str().to_owned(),
        }
    }
}

/// The remediator's configuration that a TOML document writes.
pub open spec fn remediator_of(toml: Seq<char>) -> Option<RemediatorView> {
    match toml_as_json(toml) {
        None => None,
        Some(json) => remediator_in(json),
    }
}

/// Whether `r` are both parts of the configuration that `text` writes. Where it
/// does not write the first, `complaint` has the words for it, and where it writes
/// the first only, `remediator_complaint` has.
pub open spec fn loaded<C: Fn(&str) -> String, D: Fn(&str) -> String>(
    text: &str,
    complaint: C,
    remediator_complaint: D,
    r: core::result::Result<(Config, RemediatorConfig), LoadError>,
) -> bool {
    match (config_of(text@), remediator_of(text@)) {
        (Some(cfg), Some(rcfg)) => r matches Ok(given) && given.0@ == cfg && given.1@ == rcfg,
        (None, _) => r matches Err(LoadError::Config(Error::Config(why))) && call_ensures(
            complaint,
            (text,),
            why,
        ),
        (Some(_), None) => r matches Err(LoadError::Toml(why)) && call_ensures(
            remediator_complaint,
            (text,),
            why,
        ),
    }
}

fn read_rule(text: &str) -> (r: Option<Rule>)
    ensures
        match r {
            Some(rule) => rule_of(text@) == Some(rule@),
            None => rule_of(text@) is None,
        },
{
    let names: Vec<&str> = vec!["name", "expr"];
    assert(name_views(names@) =~= seq!["name"@, "expr"@]);
    let f = read_record(text, names.as_slice(), 2, true)?;
    assert(field_views(f@).len() == 2);
    let name = take_string(&f[0])?;
    let expr = take_string(&f[1])?;
    Some(Rule { name, expr })
}

proof fn lemma_rules_fail(items: Seq<Seq<char>>, n: int)
    requires
        0 <= n <= items.len(),
        rules_of(items.take(n)) is None,
    ensures
        rules_of(items) is None,
    decreases items.len() - n,
{
    if n < items.len() {
        assert(items.take(n + 1).drop_last() =~= items.take(n));
        lemma_rules_fail(items, n + 1);
    } else {
        assert(items.take(n) =~= items);
    }
}

fn read_rules(field: &Option<String>) -> (r: Option<Vec<Rule>>)
    ensures
        match r {
            Some(list) => rule_list(opt_view(*field)) == Some(
                rule_views(list@),
            ),
            None => rule_list(opt_view(*field)) is None,
        },
{
    let mut out: Vec<Rule> = Vec::new();
    assert(rule_views(out@) =~= Seq::<RuleView>::empty());
    let text = match field {
        Some(text) => text.as_str(),
        None => return Some(out),
    };
    let items = read_array(text)?;
    let ghost all = text_views(items@);
    let mut i: usize = 0;
    assert(all.take(0) =~= Seq::<Seq<char>>::empty());
    while i < items.len()
        invariant
            i <= items.len(),
            all == text_views(items@),
            rule_list(opt_view(*field)) == rules_of(all),
            rules_of(all.take(i as int)) == Some(rule_views(out@)),
        decreases items.len() - i,
    {
        assert(all.take(i + 1).drop_last() =~= all.take(i as int));
        assert(all.take(i + 1).last() == items@[i as int]@);
        let rule = match read_rule(items[i].as_str()) {
            Some(rule) => rule,
            None => {
                proof {
                    lemma_rules_fail(all, i + 1);
                }
                return None;
            },
        };
        let ghost before = rule_views(out@);
        let ghost shown = rule@;
        out.push(rule);
        assert(rule_views(out@) =~= before.push(shown));
        i = i + 1;
    }
    assert(all.take(all.len() as int) =~= all);
    Some(out)
}

fn read_remediator_fields(json: &str) -> (r: Option<RemediatorFields>)
    ensures
        match r {
            Some(fields) => remediator_fields(json@) == Some(
                fields@,
            ),
            None => remediator_fields(json@) is None,
        },
{
    let names: Vec<&str> = vec![
        "prometheus_url",
        "poll_interval_secs",
        "cooldown_secs",
        "max_reboots_per_day",
        "listen",
        "dry_run",
        "verbose",
        "rule",
    ];
    assert(name_views(names@) =~= remediator_names());
    let f = read_record(json, names.as_slice(), 1, true)?;
    assert(field_views(f@).len() == 8);
    let prometheus_url = take_string(&f[0])?;
    let poll_interval_secs = take_opt_number(&f[1])?;
    let cooldown_secs = take_opt_number(&f[2])?;
    let max_reboots_per_day = take_opt_u32(&f[3])?;
    let listen = take_opt_string(&f[4])?;
    let dry_run = take_opt_bool(&f[5])?;
    let verbose = take_opt_bool(&f[6])?;
    let rule = read_rules(&f[7])?;
    Some(
        RemediatorFields {
            prometheus_url,
            poll_interval_secs,
            cooldown_secs,
            max_reboots_per_day,
            listen,
            dry_run,
            verbose,
            rule,
        },
    )
}

fn read_remediator(json: &str) -> (r: Option<RemediatorConfig>)
    ensures
        match r {
            Some(rcfg) => remediator_in(json@) == Some(rcfg@),
            None => remediator_in(json@) is None,
        },
{
    let names: Vec<&str> = vec!["remediator"];
    assert(name_views(names@) =~= seq!["remediator"@]);
    let f = read_record(json, names.as_slice(), 1, true)?;
    assert(field_views(f@).len() == 1);
    match &f[0] {
        None => None,
        Some(text) => {
            let fields = read_remediator_fields(text.as_str())?;
            Some(RemediatorConfig::from_fields(fields))
        },
    }
}

/// Reads both parts of a configuration file: the devices and how to reach them,
/// and the table `remediator`. `complaint` has the words for what is wrong with the
/// first part, `remediator_complaint` for what is wrong with the table.
pub fn load<C: Fn(&str) -> String, D: Fn(&str) -> String>(
    text: &str,
    complaint: &C,
    remediator_complaint: &D,
) -> (r: core::result::Result<(Config, RemediatorConfig), LoadError>)
    requires
        call_requires(*complaint, (text,)),
        call_requires(*remediator_complaint, (text,)),
    ensures
        loaded(text, *complaint, *remediator_complaint, r),
{
    let cfg = match Config::from_toml(text, complaint) {
        Ok(cfg) => cfg,
        Err(e) => return Err(LoadError::Config(e)),
    };
    match parse_remediator(text) {
        Some(rcfg) => Ok((cfg, rcfg)),
        None => Err(LoadError::Toml(remediator_complaint(text))),
    }
}

/// The remediator's configuration that `text` writes.
pub fn parse_remediator(text: &str) -> (r: Option<RemediatorConfig>)
    ensures
        match r {
            Some(rcfg) => remediator_of(text@) == Some(rcfg@),
            None => remediator_of(text@) is None,
        },
{
    let json = read_toml(text)?;
    read_remediator(json.as_str())
}

/// Reboots are performed only where the file says in so many words that they
/// are: a file that does not speak of it gives a dry run.
pub proof fn law_fails_closed(fields: RemediatorFieldsView)
    ensures
        !remediator_defaults(fields).dry_run <==> fields.dry_run == Some(false),
{
}

} // verus!
