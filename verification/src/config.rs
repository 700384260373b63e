//! The configuration file: the adapters, how to reach them and with what
//! credentials.

use crate::error::{outcome_is, Error, ErrorView, Result};
use crate::json::{
    both, field_views, json_array, name_views, opt_number, opt_string, opt_view,
    read_array, read_record, read_toml, record, string_field, take_opt_number, take_opt_string,
    take_string, toml_as_json,
};
use crate::text::{chars_of, same_text, text_of, text_views, trim, trimmed};
use vstd::prelude::*;

verus! {

/// The configuration of the tools.
#[derive(Debug, Clone)]
pub struct Config {
    /// Where the exporter serves its metrics.
    pub listen: String,
    pub request_timeout_secs: u64,
    pub connect_timeout_secs: u64,
    /// How long one scrape of all devices may take.
    pub scrape_deadline_secs: u64,
    pub username: Option<String>,
    pub password: Option<String>,
    pub password_env: Option<String>,
    pub password_file: Option<String>,
    pub device: Vec<Device>,
}

/// One adapter. What it leaves out of its credentials it has from the
/// [`Config`].
#[derive(Debug, Clone)]
pub struct Device {
    pub name: String,
    pub host: String,
    pub username: Option<String>,
    pub password: Option<String>,
    pub password_env: Option<String>,
    pub password_file: Option<String>,
}

/// A [`Device`] with its texts as character sequences.
#[verifier::ext_equal]
pub struct DeviceView {
    pub name: Seq<char>,
    pub host: Seq<char>,
    pub username: Option<Seq<char>>,
    pub password: Option<Seq<char>>,
    pub password_env: Option<Seq<char>>,
    pub password_file: Option<Seq<char>>,
}

impl View for Device {
    type V = DeviceView;

    open spec fn view(&self) -> DeviceView {
        DeviceView {
            name: self.name@,
            host: self.host@,
            username: opt_view(self.username),
            password: opt_view(self.password),
            password_env: opt_view(self.password_env),
            password_file: opt_view(self.password_file),
        }
    }
}

/// The devices by their views.
pub open spec fn device_views(devices: Seq<Device>) -> Seq<DeviceView> {
    devices.map_values(|dev: Device| dev@)
}

/// A [`Config`] with its texts as character sequences.
#[verifier::ext_equal]
pub struct ConfigView {
    pub listen: Seq<char>,
    pub request_timeout_secs: u64,
    pub connect_timeout_secs: u64,
    pub scrape_deadline_secs: u64,
    pub username: Option<Seq<char>>,
    pub password: Option<Seq<char>>,
    pub password_env: Option<Seq<char>>,
    pub password_file: Option<Seq<char>>,
    pub device: Seq<DeviceView>,
}

impl View for Config {
    type V = ConfigView;

    open spec fn view(&self) -> ConfigView {
        ConfigView {
            listen: self.listen@,
            request_timeout_secs: self.request_timeout_secs,
            connect_timeout_secs: self.connect_timeout_secs,
            scrape_deadline_secs: self.scrape_deadline_secs,
            username: opt_view(self.username),
            password: opt_view(self.password),
            password_env: opt_view(self.password_env),
            password_file: opt_view(self.password_file),
            device: device_views(self.device@),
        }
    }
}

/// The credentials a device is asked with.
#[derive(Debug, Clone, PartialEq, Eq)]
pub struct ResolvedCreds {
    pub username: String,
    pub password: String,
}

/// [`ResolvedCreds`] as character sequences.
#[verifier::ext_equal]
pub struct CredsView {
    pub username: Seq<char>,
    pub password: Seq<char>,
}

impl View for ResolvedCreds {
    type V = CredsView;

    open spec fn view(&self) -> CredsView {
        CredsView { username: self.username@, password: self.password@ }
    }
}

/// Where a password comes from.
#[derive(Debug, Clone)]
pub enum PasswordSource {
    /// The password itself.
    Inline(String),
    /// The name of an environment variable.
    Env(String),
    /// The path of a file.
    File(String),
    Missing,
}

/// A [`PasswordSource`] with its text as a character sequence.
#[verifier::ext_equal]
pub enum SourceView {
    Inline(Seq<char>),
    Env(Seq<char>),
    File(Seq<char>),
    Missing,
}

impl View for PasswordSource {
    type V = SourceView;

    open spec fn view(&self) -> SourceView {
        match *self {
            PasswordSource::Inline(password) => SourceView::Inline(password@),
            PasswordSource::Env(var) => SourceView::Env(var@),
            PasswordSource::File(path) => SourceView::File(path@),
            PasswordSource::Missing => SourceView::Missing,
        }
    }
}

/// The first of the three sources that is given.
pub open spec fn source_of(
    inline: Option<String>,
    env: Option<String>,
    file: Option<String>,
) -> SourceView {
    match (inline, env, file) {
        (Some(password), _, _) => SourceView::Inline(password@),
        (None, Some(var), _) => SourceView::Env(var@),
        (None, None, Some(path)) => SourceView::File(path@),
        (None, None, None) => SourceView::Missing,
    }
}

fn choose_source(inline: &Option<String>, env: &Option<String>, file: &Option<String>) -> (r:
    PasswordSource)
    ensures
        r@ == source_of(*inline, *env, *file),
{
    if let Some(password) = inline {
        return PasswordSource::Inline(password.as_str().to_owned());
    }
    if let Some(var) = env {
        return PasswordSource::Env(var.as_str().to_owned());
    }
    if let Some(path) = file {
        return PasswordSource::File(path.as_str().to_owned());
    }
    PasswordSource::Missing
}

/// What reading a password gave, or why it could not be read.
pub type Answer = core::result::Result<String, String>;

/// An [`Answer`] as character sequences.
pub type AnswerView = core::result::Result<Seq<char>, Seq<char>>;

pub open spec fn answer_view(answer: Answer) -> AnswerView {
    match answer {
        Ok(text) => Ok(text@),
        Err(why) => Err(why@),
    }
}

/// The position of the first device called `name`.
pub open spec fn device_named(devices: Seq<Device>, name: Seq<char>) -> Option<int>
    decreases devices.len(),
{
    if devices.len() == 0 {
        None
    } else {
        match device_named(devices.drop_last(), name) {
            Some(i) => Some(i),
            None => if devices.last().name@ == name {
                Some(devices.len() - 1)
            } else {
                None
            },
        }
    }
}

proof fn lemma_device_found(devices: Seq<Device>, name: Seq<char>, n: int, i: int)
    requires
        0 <= i < n <= devices.len(),
        device_named(devices.take(n), name) == Some(i),
    ensures
        device_named(devices, name) == Some(i),
    decreases devices.len() - n,
{
    if n < devices.len() {
        assert(devices.take(n + 1).drop_last() =~= devices.take(n));
        lemma_device_found(devices, name, n + 1, i);
    } else {
        assert(devices.take(n) =~= devices);
    }
}

/// The device found is called by the name, and none before it is.
pub proof fn lemma_device_named(devices: Seq<Device>, name: Seq<char>)
    ensures
        match device_named(devices, name) {
            Some(i) => 0 <= i < devices.len() && devices[i].name@ == name && forall|k: int|
                0 <= k < i ==> (#[trigger] devices[k]).name@ != name,
            None => forall|k: int| 0 <= k < devices.len() ==> (#[trigger] devices[k]).name@ != name,
        },
    decreases devices.len(),
{
    if devices.len() > 0 {
        let before = devices.drop_last();
        lemma_device_named(before, name);
        assert forall|k: int| 0 <= k < before.len() implies #[trigger] devices[k] == before[k] by {}
    }
}

impl Config {
    /// Where the password of `dev` comes from: its own sources before those
    /// that hold for all devices.
    pub open spec fn spec_password_source(self, dev: Device) -> SourceView {
        match source_of(dev.password, dev.password_env, dev.password_file) {
            SourceView::Missing => source_of(
                self.password,
                self.password_env,
                self.password_file,
            ),
            own => own,
        }
    }

    /// The user name for `dev`: its own, the one for all devices, or `admin`.
    pub open spec fn spec_username(self, dev: Device) -> Seq<char> {
        match (dev.username, self.username) {
            (Some(own), _) => own@,
            (None, Some(global)) => global@,
            (None, None) => "admin"@,
        }
    }

    /// The credentials for `dev`, where reading its password source gives
    /// `answer`.
    pub open spec fn resolved(self, dev: Device, answer: AnswerView) -> core::result::Result<
        CredsView,
        ErrorView,
    > {
        let username = self.spec_username(dev);
        match self.spec_password_source(dev) {
            SourceView::Inline(password) => Ok(CredsView { username, password }),
            SourceView::Env(var) => match answer {
                Ok(password) => Ok(CredsView { username, password }),
                Err(_) => Err(ErrorView::Config("env "@ + var + " not set"@)),
            },
            SourceView::File(path) => match answer {
                Ok(text) => Ok(CredsView { username, password: trim(text) }),
                Err(why) => Err(ErrorView::Config("password_file "@ + path + ": "@ + why)),
            },
            SourceView::Missing => Err(ErrorView::Config("no password configured"@)),
        }
    }

    /// Whether the password source of `dev` has to be read.
    pub open spec fn needs_reading(self, dev: Device) -> bool {
        self.spec_password_source(dev) is Env || self.spec_password_source(dev) is File
    }

    /// Where the password of `dev` comes from.
    pub fn password_source(&self, dev: &Device) -> (r: PasswordSource)
        ensures
            r@ == self.spec_password_source(*dev),
    {
        match choose_source(&dev.password, &dev.password_env, &dev.password_file) {
            PasswordSource::Missing => choose_source(
                &self.password,
                &self.password_env,
                &self.password_file,
            ),
            own => own,
        }
    }

    /// The user name for `dev`.
    pub fn username_for(&self, dev: &Device) -> (r: String)
        ensures
            r@ == self.spec_username(*dev),
    {
        if let Some(own) = &dev.username {
            return own.as_str().to_owned();
        }
        if let Some(global) = &self.username {
            return global.as_str().to_owned();
        }
        "admin".to_owned()
    }

    /// The credentials for `dev`, where reading its password source gave
    /// `answer`. The answer is of no account where nothing has to be read.
    pub fn creds_from(&self, dev: &Device, answer: Answer) -> (r: Result<ResolvedCreds>)
        ensures
            outcome_is(r, self.resolved(*dev, answer_view(answer))),
    {
        let username = self.username_for(dev);
        match self.password_source(dev) {
            PasswordSource::Inline(password) => Ok(ResolvedCreds { username, password }),
            PasswordSource::Env(var) => match answer {
                Ok(password) => Ok(ResolvedCreds { username, password }),
                Err(_) => Err(
                    Error::Config("env ".to_owned().concat(var.as_str()).concat(" not set")),
                ),
            },
            PasswordSource::File(path) => match answer {
                Ok(text) => {
                    let cs = chars_of(text.as_str());
                    let inner = trimmed(cs.as_slice());
                    Ok(ResolvedCreds { username, password: text_of(inner.as_slice()) })
                },
                Err(why) => Err(
                    Error::Config(
                        "password_file ".to_owned().concat(path.as_str()).concat(": ").concat(
                            why.as_str(),
                        ),
                    ),
                ),
            },
            PasswordSource::Missing => Err(Error::Config("no password configured".to_owned())),
        }
    }

    /// The credentials for `dev`. `read` is asked for what an environment
    /// variable or a file holds, once, and only where the password comes from
    /// there.
    pub fn creds_for<F: Fn(&PasswordSource) -> Answer>(&self, dev: &Device, read: &F) -> (r: Result<
        ResolvedCreds,
    >)
        requires
            forall|source: &PasswordSource| call_requires(*read, (source,)),
        ensures
            creds_read(*self, *dev, *read, r),
    {
        let source = self.password_source(dev);
        let asked = match &source {
            PasswordSource::Env(_) => true,
            PasswordSource::File(_) => true,
            _ => false,
        };
        if asked {
            let answer = read(&source);
            let ghost answered = answer;
            let r = self.creds_from(dev, answer);
            assert(answered_with(*self, *dev, *read, source, answered, r));
            r
        } else {
            self.creds_from(dev, Err(String::new()))
        }
    }

    /// The devices that are meant: the one called `name`, or all of them where no
    /// name is given.
    pub fn select(&self, name: Option<&str>) -> (r: core::result::Result<Vec<usize>, String>)
        ensures
            match name {
                None => r matches Ok(list) && list@ == Seq::new(
                    self.device@.len(),
                    |i: int| i as usize,
                ),
                Some(name) => match device_named(self.device@, name@) {
                    Some(i) => r matches Ok(list) && list@ == seq![i as usize],
                    None => r matches Err(e) && e@ == "device "@ + name@ + " not in config"@,
                },
            },
    {
        match name {
            Some(name) => match self.find_device(name) {
                Some(i) => Ok(vec![i]),
                None => Err("device ".to_owned().concat(name).concat(" not in config")),
            },
            None => {
                let mut list: Vec<usize> = Vec::new();
                let mut i: usize = 0;
                while i < self.device.len()
                    invariant
                        i <= self.device.len(),
                        list@ == Seq::new(i as nat, |k: int| k as usize),
                    decreases self.device.len() - i,
                {
                    list.push(i);
                    i = i + 1;
                    assert(list@ =~= Seq::new(i as nat, |k: int| k as usize));
                }
                Ok(list)
            },
        }
    }

    /// The position of the first device called `name`.
    pub fn find_device(&self, name: &str) -> (r: Option<usize>)
        ensures
            match r {
                Some(i) => device_named(self.device@, name@) == Some(i as int) && i
                    < self.device@.len() && self.device@[i as int].name@ == name@,
                None => device_named(self.device@, name@) is None,
            },
    {
        let mut i: usize = 0;
        assert(self.device@.take(0) =~= Seq::<Device>::empty());
        while i < self.device.len()
            invariant
                i <= self.device.len(),
                device_named(self.device@.take(i as int), name@) is None,
            decreases self.device.len() - i,
        {
            assert(self.device@.take(i + 1).drop_last() =~= self.device@.take(i as int));
            if same_text(self.device[i].name.as_str(), name) {
                proof {
                    lemma_device_found(self.device@, name@, i + 1, i as int);
                }
                return Some(i);
            }
            i = i + 1;
        }
        assert(self.device@.take(self.device@.len() as int) =~= self.device@);
        None
    }
}

/// Whether `r` are the credentials for `dev` where `read` gives `answer` for
/// `source`.
pub open spec fn answered_with<F: Fn(&PasswordSource) -> Answer>(
    cfg: Config,
    dev: Device,
    read: F,
    source: PasswordSource,
    answer: Answer,
    r: Result<ResolvedCreds>,
) -> bool {
    &&& source@ == cfg.spec_password_source(dev)
    &&& call_ensures(read, (&source,), answer)
    &&& outcome_is(r, cfg.resolved(dev, answer_view(answer)))
}

/// Whether `r` are credentials that `dev` can have with what `read` gives.
pub open spec fn creds_read<F: Fn(&PasswordSource) -> Answer>(
    cfg: Config,
    dev: Device,
    read: F,
    r: Result<ResolvedCreds>,
) -> bool {
    if cfg.needs_reading(dev) {
        exists|source: PasswordSource, answer: Answer|
            answered_with(cfg, dev, read, source, answer, r)
    } else {
        forall|answer: AnswerView| outcome_is(r, #[trigger] cfg.resolved(dev, answer))
    }
}

/// What a configuration file says: what it leaves out is missing.
pub struct ConfigFields {
    pub listen: Option<String>,
    pub request_timeout_secs: Option<u64>,
    pub connect_timeout_secs: Option<u64>,
    pub scrape_deadline_secs: Option<u64>,
    pub username: Option<String>,
    pub password: Option<String>,
    pub password_env: Option<String>,
    pub password_file: Option<String>,
    pub device: Vec<Device>,
}

/// [`ConfigFields`] with their texts as character sequences.
#[verifier::ext_equal]
pub struct FieldsView {
    pub listen: Option<Seq<char>>,
    pub request_timeout_secs: Option<u64>,
    pub connect_timeout_secs: Option<u64>,
    pub scrape_deadline_secs: Option<u64>,
    pub username: Option<Seq<char>>,
    pub password: Option<Seq<char>>,
    pub password_env: Option<Seq<char>>,
    pub password_file: Option<Seq<char>>,
    pub device: Seq<DeviceView>,
}

impl View for ConfigFields {
    type V = FieldsView;

    open spec fn view(&self) -> FieldsView {
        FieldsView {
            listen: opt_view(self.listen),
            request_timeout_secs: self.request_timeout_secs,
            connect_timeout_secs: self.connect_timeout_secs,
            scrape_deadline_secs: self.scrape_deadline_secs,
            username: opt_view(self.username),
            password: opt_view(self.password),
            password_env: opt_view(self.password_env),
            password_file: opt_view(self.password_file),
            device: device_views(self.device@),
        }
    }
}

/// `n`, or `default` where it is missing.
pub open spec fn or_number(n: Option<u64>, default: u64) -> u64 {
    match n {
        Some(given) => given,
        None => default,
    }
}

/// `text`, or `default` where it is missing.
pub open spec fn or_text(text: Option<Seq<char>>, default: Seq<char>) -> Seq<char> {
    match text {
        Some(given) => given,
        None => default,
    }
}

/// The configuration that a file gives: what it leaves out has its default.
pub open spec fn with_defaults(fields: FieldsView) -> ConfigView {
    ConfigView {
        listen: or_text(fields.listen, "0.0.0.0:9420"@),
        request_timeout_secs: or_number(fields.request_timeout_secs, 8),
        connect_timeout_secs: or_number(fields.connect_timeout_secs, 3),
        scrape_deadline_secs: or_number(fields.scrape_deadline_secs, 9),
        username: fields.username,
        password: fields.password,
        password_env: fields.password_env,
        password_file: fields.password_file,
        device: fields.device,
    }
}

/// Takes `n`, or `default` where it is missing.
pub fn number_or(n: Option<u64>, default: u64) -> (r: u64)
    ensures
        r == or_number(n, default),
{
    match n {
        Some(given) => given,
        None => default,
    }
}

/// Takes `text`, or `default` where it is missing.
pub fn text_or(text: Option<String>, default: &str) -> (r: String)
    ensures
        r@ == or_text(opt_view(text), default@),
{
    match text {
        Some(given) => given,
        None => default.to_owned(),
    }
}

/// The fields of a device.
pub open spec fn device_names() -> Seq<Seq<char>> {
    seq!["name"@, "host"@, "username"@, "password"@, "password_env"@, "password_file"@]
}

/// The device that a JSON text writes.
pub open spec fn device_of(text: Seq<char>) -> Option<DeviceView> {
    match record(text, device_names(), 6, true) {
        None => None,
        Some(f) => match both(
            string_field(f[0]),
            both(
                string_field(f[1]),
                both(
                    opt_string(f[2]),
                    both(opt_string(f[3]), both(opt_string(f[4]), opt_string(f[5]))),
                ),
            ),
        ) {
            None => None,
            Some((name, (host, (username, (password, (password_env, password_file)))))) => Some(
                DeviceView { name, host, username, password, password_env, password_file },
            ),
        },
    }
}

/// The devices that JSON texts write, where all of them write one.
pub open spec fn devices_of(items: Seq<Seq<char>>) -> Option<Seq<DeviceView>>
    decreases items.len(),
{
    if items.len() == 0 {
        Some(Seq::empty())
    } else {
        match devices_of(items.drop_last()) {
            None => None,
            Some(before) => match device_of(items.last()) {
                None => None,
                Some(dev) => Some(before.push(dev)),
            },
        }
    }
}

/// The devices of a field, none where it is not there.
pub open spec fn device_list(field: Option<Seq<char>>) -> Option<Seq<DeviceView>> {
    match field {
        None => Some(Seq::empty()),
        Some(text) => match json_array(text) {
            None => None,
            Some(items) => devices_of(items),
        },
    }
}

/// The fields of a configuration.
pub open spec fn config_names() -> Seq<Seq<char>> {
    seq![
        "listen"@,
        "request_timeout_secs"@,
        "connect_timeout_secs"@,
        "scrape_deadline_secs"@,
        "username"@,
        "password"@,
        "password_env"@,
        "password_file"@,
        "device"@,
    ]
}

/// What a configuration in JSON says.
pub open spec fn fields_of(json: Seq<char>) -> Option<FieldsView> {
    match record(json, config_names(), 9, true) {
        None => None,
        Some(f) => match both(
            opt_string(f[0]),
            both(
                opt_number(f[1]),
                both(
                    opt_number(f[2]),
                    both(
                        opt_number(f[3]),
                        both(
                            opt_string(f[4]),
                            both(
                                opt_string(f[5]),
                                both(opt_string(f[6]), both(opt_string(f[7]), device_list(f[8]))),
                            ),
                        ),
                    ),
                ),
            ),
        ) {
            None => None,
            Some((listen, (req, (con, (dead, (user, (pass, (env, (file, device)))))))))
            => Some(
                FieldsView {
                    listen,
                    request_timeout_secs: req,
                    connect_timeout_secs: con,
                    scrape_deadline_secs: dead,
                    username: user,
                    password: pass,
                    password_env: env,
                    password_file: file,
                    device,
                },
            ),
        },
    }
}

/// The configuration that a TOML document writes.
pub open spec fn config_of(toml: Seq<char>) -> Option<ConfigView> {
    match toml_as_json(toml) {
        None => None,
        Some(json) => match fields_of(json) {
            None => None,
            Some(fields) => Some(with_defaults(fields)),
        },
    }
}

/// Whether `r` is the configuration that `text` writes, or, where it writes none,
/// the error with the words that `complaint` has for it.
pub open spec fn configured<C: Fn(&str) -> String>(
    text: &str,
    complaint: C,
    r: Result<Config>,
) -> bool {
    match config_of(text@) {
        Some(cfg) => r matches Ok(given) && given@ == cfg,
        None => r matches Err(Error::Config(why)) && call_ensures(complaint, (text,), why),
    }
}

/// Reads one device.
fn read_device(text: &str) -> (r: Option<Device>)
    ensures
        match r {
            Some(dev) => device_of(text@) == Some(dev@),
            None => device_of(text@) is None,
        },
{
    let names: Vec<&str> = vec![
        "name",
        "host",
        "username",
        "password",
        "password_env",
        "password_file",
    ];
    assert(name_views(names@) =~= device_names());
    let f = read_record(text, names.as_slice(), 6, true)?;
    assert(field_views(f@).len() == 6);
    let name = take_string(&f[0])?;
    let host = take_string(&f[1])?;
    let username = take_opt_string(&f[2])?;
    let password = take_opt_string(&f[3])?;
    let password_env = take_opt_string(&f[4])?;
    let password_file = take_opt_string(&f[5])?;
    Some(Device { name, host, username, password, password_env, password_file })
}

proof fn lemma_devices_fail(items: Seq<Seq<char>>, n: int)
    requires
        0 <= n <= items.len(),
        devices_of(items.take(n)) is None,
    ensures
        devices_of(items) is None,
    decreases items.len() - n,
{
    if n < items.len() {
        assert(items.take(n + 1).drop_last() =~= items.take(n));
        lemma_devices_fail(items, n + 1);
    } else {
        assert(items.take(n) =~= items);
    }
}

/// Reads the devices of a field.
fn read_devices(field: &Option<String>) -> (r: Option<Vec<Device>>)
    ensures
        match r {
            Some(list) => device_list(opt_view(*field)) == Some(
                device_views(list@),
            ),
            None => device_list(opt_view(*field)) is None,
        },
{
    let mut out: Vec<Device> = Vec::new();
    assert(device_views(out@) =~= Seq::<DeviceView>::empty());
    let text = match field {
        Some(text) => text.as_str(),
        None => return Some(out),
    };
    let items = read_array(text)?;
    let ghost all = text_views(items@);
    let mut i: usize = 0;
    assert(all.take(0) =~= Seq::<Seq<char>>::empty());
    while i < items.len()
        invariant
            i <= items.len(),
            all == text_views(items@),
            device_list(opt_view(*field)) == devices_of(all),
            devices_of(all.take(i as int)) == Some(
                device_views(out@),
            ),
        decreases items.len() - i,
    {
        assert(all.take(i + 1).drop_last() =~= all.take(i as int));
        assert(all.take(i + 1).last() == items@[i as int]@);
        let dev = match read_device(items[i].as_str()) {
            Some(dev) => dev,
            None => {
                proof {
                    lemma_devices_fail(all, i + 1);
                }
                return None;
            },
        };
        let ghost before = device_views(out@);
        let ghost shown = dev@;
        out.push(dev);
        assert(device_views(out@) =~= before.push(shown));
        i = i + 1;
    }
    assert(all.take(all.len() as int) =~= all);
    Some(out)
}

/// Reads what a configuration in JSON says.
fn read_fields(json: &str) -> (r: Option<ConfigFields>)
    ensures
        match r {
            Some(fields) => fields_of(json@) == Some(fields@),
            None => fields_of(json@) is None,
        },
{
    let names: Vec<&str> = vec![
        "listen",
        "request_timeout_secs",
        "connect_timeout_secs",
        "scrape_deadline_secs",
        "username",
        "password",
        "password_env",
        "password_file",
        "device",
    ];
    assert(name_views(names@) =~= config_names());
    let f = read_record(json, names.as_slice(), 9, true)?;
    assert(field_views(f@).len() == 9);
    let listen = take_opt_string(&f[0])?;
    let request_timeout_secs = take_opt_number(&f[1])?;
    let connect_timeout_secs = take_opt_number(&f[2])?;
    let scrape_deadline_secs = take_opt_number(&f[3])?;
    let username = take_opt_string(&f[4])?;
    let password = take_opt_string(&f[5])?;
    let password_env = take_opt_string(&f[6])?;
    let password_file = take_opt_string(&f[7])?;
    let device = read_devices(&f[8])?;
    Some(
        ConfigFields {
            listen,
            request_timeout_secs,
            connect_timeout_secs,
            scrape_deadline_secs,
            username,
            password,
            password_env,
            password_file,
            device,
        },
    )
}

impl Config {
    /// The configuration that a file gives: what it leaves out has its default.
    pub fn from_fields(fields: ConfigFields) -> (r: Config)
        ensures
            r@ == with_defaults(fields@),
    {
        Config {
            listen: text_or(fields.listen, "0.0.0.0:9420"),
            request_timeout_secs: number_or(fields.request_timeout_secs, 8),
            connect_timeout_secs: number_or(fields.connect_timeout_secs, 3),
            scrape_deadline_secs: number_or(fields.scrape_deadline_secs, 9),
            username: fields.username,
            password: fields.password,
            password_env: fields.password_env,
            password_file: fields.password_file,
            device: fields.device,
        }
    }

    /// Reads a configuration file. `complaint` has the words for what is wrong with
    /// a text that writes no configuration.
    pub fn from_toml<C: Fn(&str) -> String>(s: &str, complaint: &C) -> (r: Result<Config>)
        requires
            call_requires(*complaint, (s,)),
        ensures
            configured(s, *complaint, r),
    {
        match Config::parse(s) {
            Some(cfg) => Ok(cfg),
            None => Err(Error::Config(complaint(s))),
        }
    }

    /// The configuration that `s` writes.
    pub fn parse(s: &str) -> (r: Option<Config>)
        ensures
            match r {
                Some(cfg) => config_of(s@) == Some(cfg@),
                None => config_of(s@) is None,
            },
    {
        let json = read_toml(s)?;
        let fields = read_fields(json.as_str())?;
        Some(Config::from_fields(fields))
    }
}

/// A device with a password source of its own is asked with that one, whatever
/// holds for all devices; one without has the source that holds for all.
pub proof fn law_device_overrides_global(cfg: Config, dev: Device)
    ensures
        source_of(dev.password, dev.password_env, dev.password_file) !is Missing
            ==> cfg.spec_password_source(dev) == source_of(
            dev.password,
            dev.password_env,
            dev.password_file,
        ),
        source_of(dev.password, dev.password_env, dev.password_file) is Missing
            ==> cfg.spec_password_source(dev) == source_of(
            cfg.password,
            cfg.password_env,
            cfg.password_file,
        ),
        dev.username matches Some(own) ==> cfg.spec_username(dev) == own@,
{
}

} // verus!
