use vstd::prelude::*;

use crate::json::Json;
use crate::json::JsonSpec;
use crate::json::spec_obj_get;
use crate::json::spec_num_as_u64;
use crate::json::spec_num_as_i64;
use crate::protocol::Protocol;
use crate::retry_strategy::RetryStrategy;
use crate::score::Score;
use crate::score::spec_parse_decimal;
use crate::score::SCORE_LIMIT;
use crate::score::SCORE_ONE;
use crate::service::ConfigError;
use crate::service::Service;
use vstd::string::StringSliceAdditionalSpecFns;

verus! {

/// One named sub-result of a check: its name, its success score, and its
/// payload.
pub struct TestResult {
    pub name: Vec<u8>,
    pub success: Score,
    pub result: Json,
}

/// The mathematical shape of a `TestResult`; the success is in micros.
pub struct TestResultSpec {
    pub name: Seq<u8>,
    pub success: int,
    pub result: JsonSpec,
}

impl View for TestResult {
    type V = TestResultSpec;

    open spec fn view(&self) -> TestResultSpec {
        TestResultSpec { name: self.name@, success: self.success.micros as int, result: self.result@ }
    }
}

/// The shapes of a sequence of sub-results.
pub open spec fn entries_view(s: Seq<TestResult>) -> Seq<TestResultSpec> {
    Seq::new(s.len(), |i: int| s[i]@)
}

/// The structured output of one check: a scalar, nothing, or a composite
/// of named sub-results.
pub enum ResultOutput {
    Text(Vec<u8>),
    Boolean(bool),
    Integer(i32),
    Real(Score),
    Empty,
    Composite(Vec<TestResult>),
}

/// The mathematical shape of a `ResultOutput`; scores are in micros.
pub enum ResultOutputSpec {
    Text(Seq<u8>),
    Boolean(bool),
    Integer(int),
    Real(int),
    Empty,
    Composite(Seq<TestResultSpec>),
}

impl View for ResultOutput {
    type V = ResultOutputSpec;

    open spec fn view(&self) -> ResultOutputSpec {
        match self {
            ResultOutput::Text(t) => ResultOutputSpec::Text(t@),
            ResultOutput::Boolean(b) => ResultOutputSpec::Boolean(*b),
            ResultOutput::Integer(i) => ResultOutputSpec::Integer(*i as int),
            ResultOutput::Real(s) => ResultOutputSpec::Real(s.micros as int),
            ResultOutput::Empty => ResultOutputSpec::Empty,
            ResultOutput::Composite(es) => ResultOutputSpec::Composite(entries_view(es@)),
        }
    }
}

/// The sum of the entries' success scores, in micros.
pub open spec fn composite_sum(es: Seq<TestResultSpec>) -> int
    decreases es.len(),
{
    if es.len() == 0 {
        0
    } else {
        composite_sum(es.drop_last()) + es.last().success
    }
}

/// Every entry's success score stays within `SCORE_LIMIT` micros.
pub open spec fn entries_wf(es: Seq<TestResultSpec>) -> bool {
    forall|i: int| 0 <= i < es.len() ==> -SCORE_LIMIT <= (#[trigger] es[i]).success <= SCORE_LIMIT
}

impl ResultOutputSpec {
    /// Scores stay within `SCORE_LIMIT` micros.
    pub open spec fn wf(self) -> bool {
        match self {
            ResultOutputSpec::Composite(es) => entries_wf(es),
            ResultOutputSpec::Real(m) => -SCORE_LIMIT <= m <= SCORE_LIMIT,
            _ => true,
        }
    }

    /// The scalar score an output resolves to, in micros: no output and
    /// plain text count as full success; a composite resolves to the mean
    /// of its entries (truncated toward zero at micro precision), and to
    /// zero when it has no entries.
    pub open spec fn to_score(self) -> int {
        match self {
            ResultOutputSpec::Empty => SCORE_ONE as int,
            ResultOutputSpec::Text(_) => SCORE_ONE as int,
            ResultOutputSpec::Boolean(b) => if b { SCORE_ONE as int } else { 0 },
            ResultOutputSpec::Integer(i) => i * (SCORE_ONE as int),
            ResultOutputSpec::Real(m) => m,
            ResultOutputSpec::Composite(es) => {
                if es.len() == 0 {
                    0
                } else {
                    let s = composite_sum(es);
                    if s >= 0 {
                        s / (es.len() as int)
                    } else {
                        -((-s) / (es.len() as int))
                    }
                }
            },
        }
    }
}

/// A partial sum of bounded entries is bounded by the count times the
/// limit.
pub proof fn lemma_composite_sum_bound_pub(es: Seq<TestResultSpec>)
    requires entries_wf(es),
    ensures
        -(es.len() as int) * (SCORE_LIMIT as int) <= composite_sum(es)
            <= (es.len() as int) * (SCORE_LIMIT as int),
    decreases es.len(),
{
    if es.len() > 0 {
        assert(entries_wf(es.drop_last())) by {
            assert(forall|i: int| 0 <= i < es.len() - 1 ==> es.drop_last()[i] == es[i]);
        }
        lemma_composite_sum_bound_pub(es.drop_last());
        assert(es.last() == es[es.len() - 1]);
        assert((es.len() as int) * (SCORE_LIMIT as int)
            == (es.len() - 1) * (SCORE_LIMIT as int) + SCORE_LIMIT) by (nonlinear_arith);
    }
}

impl ResultOutput {
    /// The scalar success score this output resolves to.
    pub fn to_successes(&self) -> (r: Score)
        requires self@.wf(),
        ensures r.micros as int == self@.to_score(),
    {
        match self {
            ResultOutput::Empty => Score { micros: SCORE_ONE },
            ResultOutput::Text(_) => Score { micros: SCORE_ONE },
            ResultOutput::Boolean(b) => Score { micros: if *b { SCORE_ONE } else { 0 } },
            ResultOutput::Integer(i) => {
                proof {
                    assert(-2_147_483_648 * (SCORE_ONE as int) <= (*i as int) * (SCORE_ONE as int)
                        <= 2_147_483_647 * (SCORE_ONE as int)) by (nonlinear_arith)
                        requires -2_147_483_648 <= *i as int <= 2_147_483_647;
                }
                Score { micros: (*i as i64) * (SCORE_ONE as i64) }
            },
            ResultOutput::Real(s) => *s,
            ResultOutput::Composite(es) => {
                let ghost views = entries_view(es@);
                let n = es.len();
                if n == 0 {
                    return Score { micros: 0 };
                }
                let mut sum: i128 = 0;
                let mut i: usize = 0;
                while i < n
                    invariant
                        0 <= i <= n,
                        n == es@.len(),
                        views == entries_view(es@),
                        views.len() == n,
                        entries_wf(views),
                        sum == composite_sum(views.take(i as int)),
                    decreases n - i,
                {
                    let s = es[i].success.micros;
                    proof {
                        assert(views[i as int] == es@[i as int]@);
                        assert(views.take(i as int + 1).drop_last() =~= views.take(i as int));
                        assert(views.take(i as int + 1).last() == views[i as int]);
                        assert(entries_wf(views.take(i as int))) by {
                            assert(forall|t: int| 0 <= t < i ==> views.take(i as int)[t] == views[t]);
                        }
                        assert(entries_wf(views.take(i as int + 1))) by {
                            assert(forall|t: int| 0 <= t < i + 1 ==> views.take(i as int + 1)[t] == views[t]);
                        }
                        lemma_composite_sum_bound_pub(views.take(i as int));
                        lemma_composite_sum_bound_pub(views.take(i as int + 1));
                        assert((i as int) * (SCORE_LIMIT as int) <= 18_446_744_073_709_551_616 * (SCORE_LIMIT as int))
                            by (nonlinear_arith)
                            requires 0 <= i as int <= 18_446_744_073_709_551_616;
                        assert((i as int + 1) * (SCORE_LIMIT as int) <= 18_446_744_073_709_551_616 * (SCORE_LIMIT as int))
                            by (nonlinear_arith)
                            requires 0 <= i as int + 1 <= 18_446_744_073_709_551_616;
                    }
                    sum = sum + (s as i128);
                    i = i + 1;
                }
                proof {
                    assert(views.take(n as int) =~= views);
                    lemma_composite_sum_bound_pub(views);
                    assert((n as int) * (SCORE_LIMIT as int) <= 18_446_744_073_709_551_616 * (SCORE_LIMIT as int))
                        by (nonlinear_arith)
                        requires 0 <= n as int <= 18_446_744_073_709_551_616;
                }
                let nn: u128 = n as u128;
                let mean: i64 = if sum >= 0 {
                    proof {
                        assert((sum as int) / (nn as int) <= SCORE_LIMIT as int && (sum as int) / (nn as int) >= 0)
                            by (nonlinear_arith)
                            requires
                                0 <= sum as int <= (nn as int) * (SCORE_LIMIT as int),
                                nn as int >= 1;
                    }
                    ((sum as u128) / nn) as i64
                } else {
                    proof {
                        assert(((-sum) as int) / (nn as int) <= SCORE_LIMIT as int && ((-sum) as int) / (nn as int) >= 0)
                            by (nonlinear_arith)
                            requires
                                0 <= (-sum) as int <= (nn as int) * (SCORE_LIMIT as int),
                                nn as int >= 1;
                    }
                    let q: i64 = (((-sum) as u128) / nn) as i64;
                    -q
                };
                proof {
                    assert((n as i128) * (SCORE_LIMIT as i128) == (nn as i128) * (SCORE_LIMIT as i128));
                }
                Score { micros: mean }
            },
        }
    }
}

/// Global configuration: the transport and port of the query channel, the
/// default check policy, and the configured services.
pub struct Settings {
    pub protocol: Protocol,
    pub port: u16,
    pub interval: u64,
    pub timeout: Score,
    pub pause_on_no_internet: bool,
    pub retry_counter: i64,
    pub retry_strategy: RetryStrategy,
    pub services: Vec<Service>,
}

/// The transport named by the configuration, or the stock one.
pub open spec fn cfg_protocol(j: JsonSpec) -> Protocol {
    match spec_obj_get(j, "protocol".spec_bytes()) {
        Some(JsonSpec::Str(s)) => match Protocol::spec_from_bytes(s) {
            Some(p) => p,
            None => Protocol::Tcp,
        },
        _ => Protocol::Tcp,
    }
}

/// The unsigned count a configuration key holds, or `dflt`.
pub open spec fn cfg_u64(j: JsonSpec, key: Seq<u8>, dflt: int) -> int {
    match spec_obj_get(j, key) {
        Some(JsonSpec::Num(lit)) => match spec_num_as_u64(lit) {
            Some(v) => v,
            None => dflt,
        },
        _ => dflt,
    }
}

/// The signed count a configuration key holds, or `dflt`.
pub open spec fn cfg_i64(j: JsonSpec, key: Seq<u8>, dflt: int) -> int {
    match spec_obj_get(j, key) {
        Some(JsonSpec::Num(lit)) => match spec_num_as_i64(lit) {
            Some(v) => v,
            None => dflt,
        },
        _ => dflt,
    }
}

/// The truth value a configuration key holds, or `dflt`.
pub open spec fn cfg_bool(j: JsonSpec, key: Seq<u8>, dflt: bool) -> bool {
    match spec_obj_get(j, key) {
        Some(JsonSpec::Bool(b)) => b,
        _ => dflt,
    }
}

/// The decimal value a configuration key holds, in micros, or `dflt`.
pub open spec fn cfg_decimal(j: JsonSpec, key: Seq<u8>, dflt: int) -> int {
    match spec_obj_get(j, key) {
        Some(JsonSpec::Num(lit)) => match spec_parse_decimal(lit) {
            Some(m) => m,
            None => dflt,
        },
        _ => dflt,
    }
}

/// The retry strategy named by a configuration key, or `dflt`.
pub open spec fn cfg_strategy(j: JsonSpec, key: Seq<u8>, dflt: RetryStrategy) -> RetryStrategy {
    match spec_obj_get(j, key) {
        Some(JsonSpec::Str(s)) => match RetryStrategy::spec_from_bytes(s) {
            Some(r) => r,
            None => dflt,
        },
        _ => dflt,
    }
}

impl Settings {
    /// The stock settings: the query channel on tcp port 5747, checks
    /// every 600 seconds with a 60 second timeout, no retries, the worst
    /// attempt reported, and no connectivity gate.
    pub fn stock() -> (r: Settings)
        ensures
            r.protocol == Protocol::Tcp,
            r.port == 5747u16,
            r.interval == 600u64,
            r.timeout.micros == 60i64 * SCORE_ONE,
            r.pause_on_no_internet == false,
            r.retry_counter == 0i64,
            r.retry_strategy == RetryStrategy::Worst,
            r.services@.len() == 0,
    {
        Settings {
            protocol: Protocol::Tcp,
            port: 5747,
            interval: 600,
            timeout: Score { micros: 60 * SCORE_ONE },
            pause_on_no_internet: false,
            retry_counter: 0,
            retry_strategy: RetryStrategy::Worst,
            services: Vec::new(),
        }
    }

    /// The settings a configuration document holds, without its services:
    /// each key read when present and well typed, the stock value
    /// otherwise.
    pub fn bare(json: &Json) -> (r: Settings)
        ensures
            r.protocol == cfg_protocol(json@),
            r.port as int == cfg_u64(json@, "port".spec_bytes(), 5747) % 0x10000,
            r.interval as int == cfg_u64(json@, "interval".spec_bytes(), 600),
            r.timeout.micros as int == cfg_decimal(json@, "timeout".spec_bytes(), 60 * (SCORE_ONE as int)),
            r.pause_on_no_internet == cfg_bool(json@, "pause_on_no_internet".spec_bytes(), false),
            r.retry_counter as int == cfg_i64(json@, "retry_counter".spec_bytes(), 0),
            r.retry_strategy == cfg_strategy(json@, "retry_show".spec_bytes(), RetryStrategy::Worst),
            r.services@.len() == 0,
    {
        let protocol = match json.obj_get("protocol".as_bytes()) {
            Some(Json::Str(s)) => match Protocol::from_bytes(s.as_slice()) {
                Some(p) => p,
                None => Protocol::Tcp,
            },
            _ => Protocol::Tcp,
        };
        let port: u16 = match json.obj_get("port".as_bytes()) {
            Some(v) => match v.as_u64() {
                Some(n) => (n % 0x10000) as u16,
                None => 5747,
            },
            None => 5747,
        };
        let interval: u64 = match json.obj_get("interval".as_bytes()) {
            Some(v) => match v.as_u64() {
                Some(n) => n,
                None => 600,
            },
            None => 600,
        };
        let timeout: Score = match json.obj_get("timeout".as_bytes()) {
            Some(Json::Num(lit)) => match Score::parse_decimal(lit.as_slice()) {
                Some(sc) => sc,
                None => Score { micros: 60 * SCORE_ONE },
            },
            _ => Score { micros: 60 * SCORE_ONE },
        };
        let pause_on_no_internet = match json.obj_get("pause_on_no_internet".as_bytes()) {
            Some(Json::Bool(b)) => *b,
            _ => false,
        };
        let retry_counter: i64 = match json.obj_get("retry_counter".as_bytes()) {
            Some(v) => match v.as_i64() {
                Some(n) => n,
                None => 0,
            },
            None => 0,
        };
        let retry_strategy = match json.obj_get("retry_show".as_bytes()) {
            Some(Json::Str(s)) => match RetryStrategy::from_bytes(s.as_slice()) {
                Some(r) => r,
                None => RetryStrategy::Worst,
            },
            _ => RetryStrategy::Worst,
        };
        Settings {
            protocol,
            port,
            interval,
            timeout,
            pause_on_no_internet,
            retry_counter,
            retry_strategy,
            services: Vec::new(),
        }
    }
}


/// Every service entry of the list can be read.
pub open spec fn services_ok(es: Seq<JsonSpec>) -> bool {
    forall|i: int| 0 <= i < es.len() ==> crate::service::svc_required(#[trigger] es[i]) is Ok
}

/// The document's service list has a first unreadable entry, at fault `e`.
/// Entry `i` of the document's service list is the first unreadable one,
/// at fault `e`.
pub open spec fn first_bad_service_doc(j: JsonSpec, e: ConfigError, i: int) -> bool {
    match spec_obj_get(j, "services".spec_bytes()) {
        Some(JsonSpec::Arr(es)) => first_bad_service(es, e, i),
        _ => false,
    }
}

pub open spec fn from_json_err(j: JsonSpec, e: ConfigError) -> bool {
    exists|i: int| #[trigger] first_bad_service_doc(j, e, i)
}

/// A first unreadable entry witnesses the document's fault.
proof fn lemma_first_bad_witness(j: JsonSpec, e: ConfigError, es: Seq<JsonSpec>, i: int)
    requires
        spec_obj_get(j, "services".spec_bytes()) == Some(JsonSpec::Arr(es)),
        first_bad_service(es, e, i),
    ensures
        from_json_err(j, e),
{
    assert(first_bad_service_doc(j, e, i));
}

/// Entry `i` is the first service entry that cannot be read, at fault `e`.
pub open spec fn first_bad_service(es: Seq<JsonSpec>, e: ConfigError, i: int) -> bool {
    &&& 0 <= i < es.len()
    &&& crate::service::svc_required(es[i]) == Err::<(Seq<u8>, Seq<u8>, Option<Seq<Seq<u8>>>), ConfigError>(e)
    &&& forall|j: int| 0 <= j < i ==> crate::service::svc_required(#[trigger] es[j]) is Ok
}

/// True when the settings were read whole from the document `j`: the
/// global fields as `bare` reads them, and one service per entry of the
/// `services` list, each with the global fields as its defaults.
pub open spec fn settings_from(s: Settings, j: JsonSpec) -> bool {
    &&& s.protocol == cfg_protocol(j)
    &&& s.port as int == cfg_u64(j, "port".spec_bytes(), 5747) % 0x10000
    &&& s.interval as int == cfg_u64(j, "interval".spec_bytes(), 600)
    &&& s.timeout.micros as int == cfg_decimal(j, "timeout".spec_bytes(), 60 * (SCORE_ONE as int))
    &&& s.pause_on_no_internet == cfg_bool(j, "pause_on_no_internet".spec_bytes(), false)
    &&& s.retry_counter as int == cfg_i64(j, "retry_counter".spec_bytes(), 0)
    &&& s.retry_strategy == cfg_strategy(j, "retry_show".spec_bytes(), RetryStrategy::Worst)
    &&& match spec_obj_get(j, "services".spec_bytes()) {
        Some(JsonSpec::Arr(es)) => {
            &&& services_ok(es)
            &&& s.services@.len() == es.len()
            &&& forall|i: int| 0 <= i < es.len()
                ==> crate::service::svc_matches(#[trigger] s.services@[i], es[i],
                        s.interval as int, s.timeout.micros as int,
                        s.pause_on_no_internet, s.retry_counter as int,
                        s.retry_strategy)
                    && s.services@[i].render_ready()
        },
        _ => s.services@.len() == 0,
    }
}

impl Settings {
    /// The settings a whole configuration document holds: the global
    /// fields, and one service per entry of its `services` list, each
    /// with the global fields as its defaults; rejected with the first
    /// faulty service entry's fault.
    pub fn from_json(json: &Json) -> (r: Result<Settings, ConfigError>)
        ensures
            match r {
                Ok(s) => settings_from(s, json@),
                Err(e) => from_json_err(json@, e),
            },
    {
        let mut settings = Settings::bare(json);
        proof {
            assert(settings.timeout.micros as int == cfg_decimal(json@, "timeout".spec_bytes(), 60 * (SCORE_ONE as int)));
            assert(settings.timeout.wf());
        }
        match json.obj_get("services".as_bytes()) {
            Some(Json::Arr(es)) => {
                let ghost views = crate::json::json_view_seq(es@);
                proof {
                    crate::json::lemma_view_seq_index(es@);
                }
                let n = es.len();
                let mut services: Vec<Service> = Vec::new();
                let mut i: usize = 0;
                while i < n
                    invariant
                        0 <= i <= n,
                        n == es@.len(),
                        views == crate::json::json_view_seq(es@),
                        views.len() == n,
                        forall|t: int| 0 <= t < n ==> views[t] == crate::json::json_view(#[trigger] es@[t]),
                        spec_obj_get(json@, "services".spec_bytes()) == Some(JsonSpec::Arr(views)),
                        settings.timeout.wf(),
                        services@.len() == i,
                        forall|j: int| 0 <= j < i ==> crate::service::svc_required(#[trigger] views[j]) is Ok,
                        forall|j: int| 0 <= j < i
                            ==> crate::service::svc_matches(#[trigger] services@[j], views[j],
                                    settings.interval as int, settings.timeout.micros as int,
                                    settings.pause_on_no_internet, settings.retry_counter as int,
                                    settings.retry_strategy)
                                && services@[j].render_ready(),
                    decreases n - i,
                {
                    match Service::new(&es[i], &settings) {
                        Ok(s) => {
                            services.push(s);
                        },
                        Err(e) => {
                            proof {
                                assert(first_bad_service(views, e, i as int));
                                lemma_first_bad_witness(json@, e, views, i as int);
                            }
                            return Err(e);
                        },
                    }
                    i = i + 1;
                }
                settings.services = services;
                proof {
                    assert(settings_from(settings, json@));
                }
                Ok(settings)
            },
            _ => {
                proof {
                    assert(settings_from(settings, json@));
                }
                Ok(settings)
            },
        }
    }
}

} // verus!
