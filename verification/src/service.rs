use vstd::prelude::*;

use crate::json::Json;
use crate::json::JsonSpec;
use crate::json::spec_obj_get;
use crate::retry_strategy::RetryStrategy;
use crate::score::Score;
use crate::score::SCORE_ONE;
use crate::settings::ResultOutput;
use crate::settings::ResultOutputSpec;
use crate::settings::Settings;
use crate::settings::cfg_bool;
use crate::settings::cfg_decimal;
use crate::settings::cfg_i64;
use crate::settings::cfg_strategy;
use crate::settings::cfg_u64;
use vstd::string::StringSliceAdditionalSpecFns;

verus! {

/// One monitored command: what to run, its check policy, and the latest
/// verdict.
pub struct Service {
    pub name: Vec<u8>,
    pub command: Vec<u8>,
    pub args: Option<Vec<Vec<u8>>>,
    pub interval: u64,
    pub timeout: Score,
    pub last_run: Option<i64>,
    pub successes: Score,
    pub pause_on_no_internet: bool,
    pub retry_counter: i64,
    pub retry_strategy: RetryStrategy,
    pub result: ResultOutput,
}

/// Why a service entry in the configuration cannot be used.
#[derive(Clone, Copy, PartialEq, Eq, Structural, Debug)]
pub enum ConfigError {
    MissingName,
    NameNotText,
    MissingCommand,
    CommandNotText,
    ArgsNotList,
    ArgNotText,
}

impl ConfigError {
    /// A short account of the fault.
    pub fn message(&self) -> (r: Vec<u8>)
        ensures r@ == self.spec_message(),
    {
        match *self {
            ConfigError::MissingName => copy_bytes("Missing name value in service".as_bytes()),
            ConfigError::NameNotText => copy_bytes("Name is not a valid string".as_bytes()),
            ConfigError::MissingCommand => copy_bytes("Missing command value in service".as_bytes()),
            ConfigError::CommandNotText => copy_bytes("Command is not a valid string".as_bytes()),
            ConfigError::ArgsNotList => copy_bytes("args is not a valid array".as_bytes()),
            ConfigError::ArgNotText => copy_bytes("arg is not a valid string".as_bytes()),
        }
    }

    /// The account each fault carries.
    pub open spec fn spec_message(self) -> Seq<u8> {
        match self {
            ConfigError::MissingName => "Missing name value in service".spec_bytes(),
            ConfigError::NameNotText => "Name is not a valid string".spec_bytes(),
            ConfigError::MissingCommand => "Missing command value in service".spec_bytes(),
            ConfigError::CommandNotText => "Command is not a valid string".spec_bytes(),
            ConfigError::ArgsNotList => "args is not a valid array".spec_bytes(),
            ConfigError::ArgNotText => "arg is not a valid string".spec_bytes(),
        }
    }
}

/// A copy of a byte string.
pub fn copy_bytes(s: &[u8]) -> (r: Vec<u8>)
    ensures r@ == s@,
{
    let mut out: Vec<u8> = Vec::new();
    crate::score::collect_range(s, 0, s.len(), &mut out);
    proof {
        assert(s@.subrange(0, s@.len() as int) =~= s@);
        assert(out@ =~= s@);
    }
    out
}

/// The text items of a list of values, or the fault for one that is not
/// text.
pub open spec fn str_items(es: Seq<JsonSpec>) -> Result<Seq<Seq<u8>>, ConfigError>
    decreases es.len(),
{
    if es.len() == 0 {
        Ok(Seq::empty())
    } else {
        match str_items(es.drop_last()) {
            Err(e) => Err(e),
            Ok(front) => match es.last() {
                JsonSpec::Str(s) => Ok(front.push(s)),
                _ => Err(ConfigError::ArgNotText),
            },
        }
    }
}

/// The required fields of a service entry: its name, its command, and its
/// optional argument list.
pub open spec fn svc_required(v: JsonSpec) -> Result<(Seq<u8>, Seq<u8>, Option<Seq<Seq<u8>>>), ConfigError> {
    match spec_obj_get(v, "name".spec_bytes()) {
        None => Err(ConfigError::MissingName),
        Some(JsonSpec::Str(nm)) => match spec_obj_get(v, "command".spec_bytes()) {
            None => Err(ConfigError::MissingCommand),
            Some(JsonSpec::Str(cmd)) => match spec_obj_get(v, "args".spec_bytes()) {
                None => Ok((nm, cmd, None)),
                Some(JsonSpec::Arr(es)) => match str_items(es) {
                    Ok(items) => Ok((nm, cmd, Some(items))),
                    Err(e) => Err(e),
                },
                Some(_) => Err(ConfigError::ArgsNotList),
            },
            Some(_) => Err(ConfigError::CommandNotText),
        },
        Some(_) => Err(ConfigError::NameNotText),
    }
}

/// The text items an argument list holds.
pub open spec fn args_view(args: Option<Vec<Vec<u8>>>) -> Option<Seq<Seq<u8>>> {
    match args {
        None => None,
        Some(v) => Some(Seq::new(v@.len(), |i: int| v@[i]@)),
    }
}

/// True when the service was read from `v` with these policy defaults:
/// the required fields carried over, every policy key read when present
/// and well typed, and the runtime fields fresh.
pub open spec fn svc_matches(
    s: Service,
    v: JsonSpec,
    dflt_interval: int,
    dflt_timeout: int,
    dflt_pause: bool,
    dflt_retry: int,
    dflt_strategy: RetryStrategy,
) -> bool {
    &&& svc_required(v) matches Ok((nm, cmd, ar))
        && s.name@ == nm && s.command@ == cmd && args_view(s.args) == ar
    &&& s.interval as int == cfg_u64(v, "interval".spec_bytes(), dflt_interval)
    &&& s.timeout.micros as int == cfg_decimal(v, "timeout".spec_bytes(), dflt_timeout)
    &&& s.pause_on_no_internet == cfg_bool(v, "pause_on_no_internet".spec_bytes(), dflt_pause)
    &&& s.retry_counter as int == cfg_i64(v, "retry_counter".spec_bytes(), dflt_retry)
    &&& s.retry_strategy == cfg_strategy(v, "retry_show".spec_bytes(), dflt_strategy)
    &&& s.last_run is None
    &&& s.successes.micros == 0
    &&& s.result@ == ResultOutputSpec::Boolean(false)
}

impl Service {
    /// The runtime fields can be shown: the scores lie within the limit.
    pub open spec fn render_ready(self) -> bool {
        &&& self.successes.wf()
        &&& self.timeout.wf()
        &&& self.result@.wf()
    }

    /// The service a configuration entry describes, with the global
    /// settings filling every absent policy field; rejected when the
    /// entry lacks a name or a command, or when one of those, or an
    /// argument, is not text.
    pub fn new(value: &Json, settings: &Settings) -> (r: Result<Service, ConfigError>)
        requires
            settings.timeout.wf(),
        ensures
            match r {
                Ok(s) => svc_matches(s, value@, settings.interval as int,
                        settings.timeout.micros as int, settings.pause_on_no_internet,
                        settings.retry_counter as int, settings.retry_strategy)
                    && s.render_ready(),
                Err(e) => svc_required(value@) == Err::<(Seq<u8>, Seq<u8>, Option<Seq<Seq<u8>>>), ConfigError>(e),
            },
    {
        let name: Vec<u8> = match value.obj_get("name".as_bytes()) {
            None => { return Err(ConfigError::MissingName); },
            Some(Json::Str(nm)) => copy_bytes(nm.as_slice()),
            Some(_) => { return Err(ConfigError::NameNotText); },
        };
        let command: Vec<u8> = match value.obj_get("command".as_bytes()) {
            None => { return Err(ConfigError::MissingCommand); },
            Some(Json::Str(cmd)) => copy_bytes(cmd.as_slice()),
            Some(_) => { return Err(ConfigError::CommandNotText); },
        };
        let args: Option<Vec<Vec<u8>>> = match value.obj_get("args".as_bytes()) {
            None => None,
            Some(Json::Arr(es)) => {
                let ghost views = crate::json::json_view_seq(es@);
                proof {
                    crate::json::lemma_view_seq_index(es@);
                }
                let n = es.len();
                let mut items: Vec<Vec<u8>> = Vec::new();
                let mut i: usize = 0;
                proof {
                    assert(views.take(0) =~= Seq::<JsonSpec>::empty());
                    assert(Seq::new(items@.len(), |t: int| items@[t]@) =~= Seq::<Seq<u8>>::empty());
                }
                while i < n
                    invariant
                        0 <= i <= n,
                        n == es@.len(),
                        views == crate::json::json_view_seq(es@),
                        views.len() == n,
                        forall|t: int| 0 <= t < n ==> views[t] == crate::json::json_view(#[trigger] es@[t]),
                        str_items(views.take(i as int)) == Ok::<Seq<Seq<u8>>, ConfigError>(
                            Seq::new(items@.len(), |t: int| items@[t]@)),
                        items@.len() == i,
                        match str_items(views) {
                            Err(e) => svc_required(value@) == Err::<(Seq<u8>, Seq<u8>, Option<Seq<Seq<u8>>>), ConfigError>(e),
                            Ok(all) => svc_required(value@) == Ok::<(Seq<u8>, Seq<u8>, Option<Seq<Seq<u8>>>), ConfigError>(
                                (name@, command@, Some(all))),
                        },
                    decreases n - i,
                {
                    let ghost items0 = Seq::new(items@.len(), |t: int| items@[t]@);
                    match &es[i] {
                        Json::Str(s) => {
                            items.push(copy_bytes(s.as_slice()));
                        },
                        _ => {
                            proof {
                                assert(views.take(i as int + 1).drop_last() =~= views.take(i as int));
                                assert(views.take(i as int + 1).last() == views[i as int]);
                                lemma_str_items_err(views, i as int + 1, n as int);
                                assert(str_items(views) == Err::<Seq<Seq<u8>>, ConfigError>(ConfigError::ArgNotText));
                            }
                            return Err(ConfigError::ArgNotText);
                        },
                    }
                    proof {
                        assert(views.take(i as int + 1).drop_last() =~= views.take(i as int));
                        assert(views.take(i as int + 1).last() == views[i as int]);
                        assert(Seq::new(items@.len(), |t: int| items@[t]@) =~= items0.push(items@[i as int]@));
                    }
                    i = i + 1;
                }
                proof {
                    assert(views.take(n as int) =~= views);
                }
                Some(items)
            },
            Some(_) => { return Err(ConfigError::ArgsNotList); },
        };
        let interval: u64 = match value.obj_get("interval".as_bytes()) {
            Some(v) => match v.as_u64() {
                Some(n) => n,
                None => settings.interval,
            },
            None => settings.interval,
        };
        let timeout: Score = match value.obj_get("timeout".as_bytes()) {
            Some(Json::Num(lit)) => match Score::parse_decimal(lit.as_slice()) {
                Some(sc) => sc,
                None => settings.timeout,
            },
            _ => settings.timeout,
        };
        let pause_on_no_internet: bool = match value.obj_get("pause_on_no_internet".as_bytes()) {
            Some(Json::Bool(b)) => *b,
            _ => settings.pause_on_no_internet,
        };
        let retry_counter: i64 = match value.obj_get("retry_counter".as_bytes()) {
            Some(v) => match v.as_i64() {
                Some(n) => n,
                None => settings.retry_counter,
            },
            None => settings.retry_counter,
        };
        let retry_strategy: RetryStrategy = match value.obj_get("retry_show".as_bytes()) {
            Some(Json::Str(s)) => match RetryStrategy::from_bytes(s.as_slice()) {
                Some(r) => r,
                None => settings.retry_strategy,
            },
            _ => settings.retry_strategy,
        };
        Ok(Service {
            name,
            command,
            args,
            interval,
            timeout,
            last_run: None,
            successes: Score { micros: 0 },
            pause_on_no_internet,
            retry_counter,
            retry_strategy,
            result: ResultOutput::Boolean(false),
        })
    }
}

/// Once one item up to `k` is no text, the whole list shares its fault.
proof fn lemma_str_items_err(es: Seq<JsonSpec>, k: int, n: int)
    requires
        0 < k <= n == es.len(),
        str_items(es.take(k)) is Err,
    ensures
        str_items(es) == str_items(es.take(k)),
    decreases n - k,
{
    if k < n {
        assert(es.take(k + 1).drop_last() =~= es.take(k));
        lemma_str_items_err(es, k + 1, n);
    } else {
        assert(es.take(k) =~= es);
    }
}


impl Service {
    /// A field-for-field copy of this service.
    pub fn snapshot(&self) -> (r: Service)
        ensures
            r.name@ == self.name@,
            r.command@ == self.command@,
            args_view(r.args) == args_view(self.args),
            r.interval == self.interval,
            r.timeout == self.timeout,
            r.last_run == self.last_run,
            r.successes == self.successes,
            r.pause_on_no_internet == self.pause_on_no_internet,
            r.retry_counter == self.retry_counter,
            r.retry_strategy == self.retry_strategy,
            r.result@ == self.result@,
    {
        let args: Option<Vec<Vec<u8>>> = match &self.args {
            None => None,
            Some(v) => {
                let n = v.len();
                let mut out: Vec<Vec<u8>> = Vec::new();
                let mut i: usize = 0;
                while i < n
                    invariant
                        0 <= i <= n,
                        n == v@.len(),
                        out@.len() == i,
                        forall|t: int| 0 <= t < i ==> (#[trigger] out@[t])@ == v@[t]@,
                    decreases n - i,
                {
                    out.push(copy_bytes(v[i].as_slice()));
                    i = i + 1;
                }
                Some(out)
            },
        };
        proof {
            match &args {
                None => {},
                Some(out) => {
                    match &self.args {
                        None => { assert(false); },
                        Some(orig) => {
                            assert(Seq::new(out@.len(), |i: int| out@[i]@)
                                =~= Seq::new(orig@.len(), |i: int| orig@[i]@));
                        },
                    }
                },
            }
        }
        Service {
            name: copy_bytes(self.name.as_slice()),
            command: copy_bytes(self.command.as_slice()),
            args,
            interval: self.interval,
            timeout: self.timeout,
            last_run: self.last_run,
            successes: self.successes,
            pause_on_no_internet: self.pause_on_no_internet,
            retry_counter: self.retry_counter,
            retry_strategy: self.retry_strategy,
            result: crate::tester::clone_output_pub(&self.result),
        }
    }
}

} // verus!

