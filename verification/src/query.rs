use vstd::prelude::*;

use crate::json::Json;
use crate::json::JsonSpec;
use crate::json::bytes_eq;
use crate::json::json_view;
use crate::json::json_view_seq;
use crate::json::json_view_members;
use crate::json::spec_render;
use crate::retry_strategy::RetryStrategy;
use crate::score::Score;
use crate::score::SCORE_ONE;
use crate::score::dec_digits;
use crate::score::int_dec;
use crate::score::spec_render_micros;
use crate::score::u64_dec_digits;
use crate::score::i64_dec;
use crate::service::Service;
use crate::service::copy_bytes;
use crate::settings::ResultOutput;
use crate::settings::ResultOutputSpec;
use crate::settings::Settings;
use crate::settings::TestResult;
use crate::settings::TestResultSpec;
use crate::settings::entries_view;
use vstd::string::StringSliceAdditionalSpecFns;

verus! {

/// One command of the status-query language.
pub enum QueryCmd {
    ServiceQuery { names: Vec<Vec<u8>>, short: bool, errors: bool },
    ListQuery,
    SettingsQuery,
}

/// The mathematical shape of a `QueryCmd`.
pub enum QueryCmdSpec {
    ServiceQuery { names: Seq<Seq<u8>>, short: bool, errors: bool },
    ListQuery,
    SettingsQuery,
}

impl View for QueryCmd {
    type V = QueryCmdSpec;

    open spec fn view(&self) -> QueryCmdSpec {
        match self {
            QueryCmd::ServiceQuery { names, short, errors } => QueryCmdSpec::ServiceQuery {
                names: Seq::new(names@.len(), |i: int| names@[i]@),
                short: *short,
                errors: *errors,
            },
            QueryCmd::ListQuery => QueryCmdSpec::ListQuery,
            QueryCmd::SettingsQuery => QueryCmdSpec::SettingsQuery,
        }
    }
}

/// True when a byte separates tokens: any ASCII blank.
pub open spec fn is_blank(b: u8) -> bool {
    b == 32 || (9 <= b <= 13)
}

/// The first position at or after `i` that holds no blank.
pub open spec fn scan_blank(s: Seq<u8>, i: int) -> int
    decreases s.len() - i,
{
    if 0 <= i < s.len() && is_blank(s[i]) {
        scan_blank(s, i + 1)
    } else {
        i
    }
}

/// The first position at or after `i` that holds a blank, or the end.
pub open spec fn scan_word(s: Seq<u8>, i: int) -> int
    decreases s.len() - i,
{
    if 0 <= i < s.len() && !is_blank(s[i]) {
        scan_word(s, i + 1)
    } else {
        i
    }
}

/// The blank-separated tokens of `s` from position `i` on.
pub open spec fn spec_tokens_from(s: Seq<u8>, i: int) -> Seq<Seq<u8>>
    decreases s.len() - i,
{
    if i < 0 || i >= s.len() {
        Seq::empty()
    } else {
        let j = scan_blank(s, i);
        if j >= s.len() {
            Seq::empty()
        } else {
            let k = scan_word(s, j);
            if 0 <= j && j < k && i < k && k <= s.len() {
                seq![s.subrange(j, k)] + spec_tokens_from(s, k)
            } else {
                Seq::empty()
            }
        }
    }
}

/// The names and flags gathered from the arguments of a service query:
/// `None` when a token looks like a flag but is neither `--short` nor
/// `--errors`.
pub open spec fn q_args(toks: Seq<Seq<u8>>) -> Option<(Seq<Seq<u8>>, bool, bool)>
    decreases toks.len(),
{
    if toks.len() == 0 {
        Some((Seq::empty(), false, false))
    } else {
        match q_args(toks.drop_last()) {
            None => None,
            Some((nm, sh, er)) => {
                let t = toks.last();
                if t == "--short".spec_bytes() {
                    Some((nm, true, er))
                } else if t == "--errors".spec_bytes() {
                    Some((nm, sh, true))
                } else if t.len() > 0 && t[0] == 45 {
                    None
                } else {
                    Some((nm.push(t), sh, er))
                }
            },
        }
    }
}

/// The command the tokens spell, or `None` when they spell none.
pub open spec fn spec_parse_query(toks: Seq<Seq<u8>>) -> Option<QueryCmdSpec> {
    if toks.len() == 0 {
        None
    } else if toks[0] == "service".spec_bytes() {
        match q_args(toks.drop_first()) {
            None => None,
            Some((nm, sh, er)) => Some(QueryCmdSpec::ServiceQuery { names: nm, short: sh, errors: er }),
        }
    } else if toks[0] == "list".spec_bytes() {
        if toks.len() == 1 {
            Some(QueryCmdSpec::ListQuery)
        } else {
            None
        }
    } else if toks[0] == "settings".spec_bytes() {
        if toks.len() == 1 {
            Some(QueryCmdSpec::SettingsQuery)
        } else {
            None
        }
    } else {
        None
    }
}

/// The reply to a request that spells no command.
pub open spec fn spec_usage() -> Seq<u8> {
    "Commands: service [names]... [--short] [--errors] | list | settings".spec_bytes()
}

/// The first non-blank position, skipping only blanks.
fn scan_blank_run(s: &[u8], i: usize) -> (r: usize)
    requires i <= s@.len(),
    ensures
        r as int == scan_blank(s@, i as int),
        i <= r <= s@.len(),
        r < s@.len() ==> !is_blank(s@[r as int]),
{
    let n = s.len();
    let mut j = i;
    while j < n && (s[j] == 32 || (9 <= s[j] && s[j] <= 13))
        invariant
            i <= j <= n,
            n == s@.len(),
            scan_blank(s@, i as int) == scan_blank(s@, j as int),
        decreases n - j,
    {
        j = j + 1;
    }
    j
}

/// The first blank position, skipping only non-blanks.
fn scan_word_run(s: &[u8], i: usize) -> (r: usize)
    requires i <= s@.len(),
    ensures
        r as int == scan_word(s@, i as int),
        i <= r <= s@.len(),
{
    let n = s.len();
    let mut j = i;
    while j < n && !(s[j] == 32 || (9 <= s[j] && s[j] <= 13))
        invariant
            i <= j <= n,
            n == s@.len(),
            scan_word(s@, i as int) == scan_word(s@, j as int),
        decreases n - j,
    {
        j = j + 1;
    }
    j
}

/// The scan for a blank stays within the text.
proof fn lemma_scan_word_lb(s: Seq<u8>, i: int)
    requires 0 <= i <= s.len(),
    ensures i <= scan_word(s, i) <= s.len(),
    decreases s.len() - i,
{
    if i < s.len() && !is_blank(s[i]) {
        lemma_scan_word_lb(s, i + 1);
    }
}

/// Once a token reads as an unknown flag, the whole argument list is at
/// fault.
proof fn lemma_q_args_err(toks: Seq<Seq<u8>>, k: int)
    requires
        0 <= k <= toks.len(),
        q_args(toks.take(k)) is None,
    ensures
        q_args(toks) is None,
    decreases toks.len() - k,
{
    if k < toks.len() {
        assert(toks.take(k + 1).drop_last() =~= toks.take(k));
        lemma_q_args_err(toks, k + 1);
    } else {
        assert(toks.take(k) =~= toks);
    }
}

/// The blank-separated tokens of `s`.
fn tokenize(s: &[u8]) -> (r: Vec<Vec<u8>>)
    ensures crate::tester::lines_view(r@) == spec_tokens_from(s@, 0),
{
    let n = s.len();
    let mut out: Vec<Vec<u8>> = Vec::new();
    let mut pos: usize = 0;
    proof {
        assert(crate::tester::lines_view(out@) =~= Seq::<Seq<u8>>::empty());
        assert(Seq::<Seq<u8>>::empty() + spec_tokens_from(s@, 0) =~= spec_tokens_from(s@, 0));
    }
    while pos < n
        invariant
            0 <= pos <= n,
            n == s@.len(),
            spec_tokens_from(s@, 0) == crate::tester::lines_view(out@) + spec_tokens_from(s@, pos as int),
        decreases n - pos,
    {
        let j = scan_blank_run(s, pos);
        if j >= n {
            proof {
                assert(spec_tokens_from(s@, pos as int) =~= Seq::<Seq<u8>>::empty());
                assert(crate::tester::lines_view(out@) + Seq::<Seq<u8>>::empty() =~= crate::tester::lines_view(out@));
            }
            return out;
        }
        let k = scan_word_run(s, j);
        proof {
            assert(!is_blank(s@[j as int]));
            assert(scan_word(s@, j as int) == scan_word(s@, j as int + 1));
            lemma_scan_word_lb(s@, j as int + 1);
        }
        let mut tok: Vec<u8> = Vec::new();
        crate::score::collect_range(s, j, k, &mut tok);
        let ghost before = out@;
        out.push(tok);
        proof {
            assert(crate::tester::lines_view(out@) =~= crate::tester::lines_view(before).push(s@.subrange(j as int, k as int)));
            assert(spec_tokens_from(s@, pos as int)
                == seq![s@.subrange(j as int, k as int)] + spec_tokens_from(s@, k as int));
            assert(crate::tester::lines_view(before).push(s@.subrange(j as int, k as int))
                =~= crate::tester::lines_view(before) + seq![s@.subrange(j as int, k as int)]);
            assert((crate::tester::lines_view(before) + seq![s@.subrange(j as int, k as int)]) + spec_tokens_from(s@, k as int)
                =~= crate::tester::lines_view(before) + (seq![s@.subrange(j as int, k as int)] + spec_tokens_from(s@, k as int)));
        }
        pos = k;
    }
    proof {
        assert(spec_tokens_from(s@, pos as int) =~= Seq::<Seq<u8>>::empty());
        assert(crate::tester::lines_view(out@) + Seq::<Seq<u8>>::empty() =~= crate::tester::lines_view(out@));
    }
    out
}

impl QueryCmd {
    /// The command a request line spells, or the usage text when it
    /// spells none.
    pub fn parse(input: &[u8]) -> (r: Result<QueryCmd, Vec<u8>>)
        ensures
            match r {
                Ok(c) => spec_parse_query(spec_tokens_from(input@, 0)) == Some(c@),
                Err(u) => spec_parse_query(spec_tokens_from(input@, 0)) is None && u@ == spec_usage(),
            },
    {
        let toks = tokenize(input);
        let ghost tv = crate::tester::lines_view(toks@);
        if toks.len() == 0 {
            return Err(copy_bytes("Commands: service [names]... [--short] [--errors] | list | settings".as_bytes()));
        }
        proof {
            assert(tv[0] == toks@[0]@);
        }
        if bytes_eq(toks[0].as_slice(), "service".as_bytes()) {
            let n = toks.len();
            let mut names: Vec<Vec<u8>> = Vec::new();
            let mut short = false;
            let mut errors = false;
            let mut i: usize = 1;
            proof {
                assert(tv.drop_first().take(0) =~= Seq::<Seq<u8>>::empty());
                assert(Seq::new(names@.len(), |t: int| names@[t]@) =~= Seq::<Seq<u8>>::empty());
            }
            while i < n
                invariant
                    1 <= i <= n,
                    n == toks@.len(),
                    tv == crate::tester::lines_view(toks@),
                    tv.len() == n,
                    tv == spec_tokens_from(input@, 0),
                    tv[0] == "service".spec_bytes(),
                    q_args(tv.drop_first().take(i as int - 1))
                        == Some::<(Seq<Seq<u8>>, bool, bool)>((
                            Seq::new(names@.len(), |t: int| names@[t]@), short, errors)),
                decreases n - i,
            {
                proof {
                    assert(tv.drop_first().take(i as int).drop_last() =~= tv.drop_first().take(i as int - 1));
                    assert(tv.drop_first().take(i as int).last() == tv.drop_first()[i as int - 1]);
                    assert(tv.drop_first()[i as int - 1] == tv[i as int]);
                    assert(tv[i as int] == toks@[i as int]@);
                }
                let t = &toks[i];
                if bytes_eq(t.as_slice(), "--short".as_bytes()) {
                    short = true;
                } else if bytes_eq(t.as_slice(), "--errors".as_bytes()) {
                    errors = true;
                } else if t.len() > 0 && t[0] == 45 {
                    proof {
                        assert(q_args(tv.drop_first().take(i as int)) is None);
                        lemma_q_args_err(tv.drop_first(), i as int);
                    }
                    return Err(copy_bytes("Commands: service [names]... [--short] [--errors] | list | settings".as_bytes()));
                } else {
                    let ghost before = Seq::new(names@.len(), |t2: int| names@[t2]@);
                    names.push(copy_bytes(t.as_slice()));
                    proof {
                        assert(Seq::new(names@.len(), |t2: int| names@[t2]@) =~= before.push(tv[i as int]));
                    }
                }
                i = i + 1;
            }
            proof {
                assert(tv.drop_first().take(n as int - 1) =~= tv.drop_first());
            }
            Ok(QueryCmd::ServiceQuery { names, short, errors })
        } else if bytes_eq(toks[0].as_slice(), "list".as_bytes()) {
            if toks.len() == 1 {
                Ok(QueryCmd::ListQuery)
            } else {
                Err(copy_bytes("Commands: service [names]... [--short] [--errors] | list | settings".as_bytes()))
            }
        } else if bytes_eq(toks[0].as_slice(), "settings".as_bytes()) {
            if toks.len() == 1 {
                Ok(QueryCmd::SettingsQuery)
            } else {
                Err(copy_bytes("Commands: service [names]... [--short] [--errors] | list | settings".as_bytes()))
            }
        } else {
            Err(copy_bytes("Commands: service [names]... [--short] [--errors] | list | settings".as_bytes()))
        }
    }
}


/// Appends a byte string to `out`.
fn push_bytes(out: &mut Vec<u8>, s: &[u8])
    ensures final(out)@ == old(out)@ + s@,
{
    crate::score::collect_range(s, 0, s.len(), out);
    proof {
        assert(s@.subrange(0, s@.len() as int) =~= s@);
    }
}

/// The items joined by `sep`.
pub open spec fn joined(items: Seq<Seq<u8>>, sep: Seq<u8>) -> Seq<u8>
    decreases items.len(),
{
    if items.len() == 0 {
        Seq::empty()
    } else if items.len() == 1 {
        items[0]
    } else {
        joined(items.drop_last(), sep) + sep + items.last()
    }
}

/// The configured services' names.
pub open spec fn service_names(svcs: Seq<Service>) -> Seq<Seq<u8>> {
    Seq::new(svcs.len(), |i: int| svcs[i].name@)
}

/// The reply to `list`: the service names joined by a comma.
pub open spec fn spec_list_reply(svcs: Seq<Service>) -> Seq<u8> {
    joined(service_names(svcs), ", ".spec_bytes())
}

/// The text of a truth value.
pub open spec fn bool_bytes(b: bool) -> Seq<u8> {
    if b { "true".spec_bytes() } else { "false".spec_bytes() }
}

/// The name of a retry strategy, as bytes.
pub open spec fn strategy_bytes(st: RetryStrategy) -> Seq<u8> {
    match st {
        RetryStrategy::Best => "best".spec_bytes(),
        RetryStrategy::CombinedBest => "combined_best".spec_bytes(),
        RetryStrategy::Median => "median".spec_bytes(),
        RetryStrategy::Worst => "worst".spec_bytes(),
        RetryStrategy::CombinedWorst => "combined_worst".spec_bytes(),
    }
}

/// One service's line in the settings dump.
pub open spec fn svc_line(s: Service) -> Seq<u8> {
    "name: ".spec_bytes() + s.name@
        + ", command: ".spec_bytes() + s.command@
        + ", interval: ".spec_bytes() + dec_digits(s.interval as nat)
        + ", timeout: ".spec_bytes() + spec_render_micros(s.timeout.micros as int, true)
        + ", retry counter: ".spec_bytes() + int_dec(s.retry_counter as int)
}

/// The reply to `settings`: the global fields, each on its own line, and
/// one line per service.
pub open spec fn spec_settings_reply(s: Settings) -> Seq<u8> {
    "Check Interval: ".spec_bytes() + dec_digits(s.interval as nat)
        + "\nTimeout: ".spec_bytes() + spec_render_micros(s.timeout.micros as int, true)
        + "\nSkip with no internet: ".spec_bytes() + bool_bytes(s.pause_on_no_internet)
        + "\nRetries: ".spec_bytes() + int_dec(s.retry_counter as int)
        + "\nRetry strategy: ".spec_bytes() + strategy_bytes(s.retry_strategy)
        + "\nServices:\n".spec_bytes()
        + joined(Seq::new(s.services@.len(), |i: int| svc_line(s.services@[i])), "\n".spec_bytes())
        + "\n".spec_bytes()
}

/// The structured shape of an argument list: nothing, or the texts.
pub open spec fn args_json(args: Option<Vec<Vec<u8>>>) -> JsonSpec {
    match args {
        None => JsonSpec::Null,
        Some(v) => JsonSpec::Arr(Seq::new(v@.len(), |i: int| JsonSpec::Str(v@[i]@))),
    }
}

/// The structured shape of one composite entry.
pub open spec fn entry_json(e: TestResultSpec) -> JsonSpec {
    JsonSpec::Obj(seq![
        ("name".spec_bytes(), JsonSpec::Str(e.name)),
        ("success".spec_bytes(), JsonSpec::Num(spec_render_micros(e.success, false))),
        ("result".spec_bytes(), e.result),
    ])
}

/// The structured shape of a check output.
pub open spec fn output_json(o: ResultOutputSpec) -> JsonSpec {
    match o {
        ResultOutputSpec::Text(t) => JsonSpec::Str(t),
        ResultOutputSpec::Boolean(b) => JsonSpec::Bool(b),
        ResultOutputSpec::Integer(i) => JsonSpec::Num(int_dec(i)),
        ResultOutputSpec::Real(m) => JsonSpec::Num(spec_render_micros(m, false)),
        ResultOutputSpec::Empty => JsonSpec::Null,
        ResultOutputSpec::Composite(es) => JsonSpec::Arr(Seq::new(es.len(), |i: int| entry_json(es[i]))),
    }
}

/// The structured record of one service: the reduced projection when
/// `short`, in key order; the full record otherwise, in field order, with
/// `out` standing as its latest result.
pub open spec fn spec_service_json(s: Service, short: bool, out: ResultOutputSpec) -> JsonSpec {
    if short {
        JsonSpec::Obj(seq![
            ("args".spec_bytes(), args_json(s.args)),
            ("command".spec_bytes(), JsonSpec::Str(s.command@)),
            ("interval".spec_bytes(), JsonSpec::Num(dec_digits(s.interval as nat))),
            ("name".spec_bytes(), JsonSpec::Str(s.name@)),
            ("pause_on_no_internet".spec_bytes(), JsonSpec::Bool(s.pause_on_no_internet)),
            ("successes".spec_bytes(), JsonSpec::Num(spec_render_micros(s.successes.micros as int, false))),
            ("timeout".spec_bytes(), JsonSpec::Num(spec_render_micros(s.timeout.micros as int, false))),
        ])
    } else {
        JsonSpec::Obj(seq![
            ("name".spec_bytes(), JsonSpec::Str(s.name@)),
            ("command".spec_bytes(), JsonSpec::Str(s.command@)),
            ("args".spec_bytes(), args_json(s.args)),
            ("interval".spec_bytes(), JsonSpec::Num(dec_digits(s.interval as nat))),
            ("timeout".spec_bytes(), JsonSpec::Num(spec_render_micros(s.timeout.micros as int, false))),
            ("last_run".spec_bytes(), match s.last_run {
                None => JsonSpec::Null,
                Some(ts) => JsonSpec::Num(int_dec(ts as int)),
            }),
            ("successes".spec_bytes(), JsonSpec::Num(spec_render_micros(s.successes.micros as int, false))),
            ("pause_on_no_internet".spec_bytes(), JsonSpec::Bool(s.pause_on_no_internet)),
            ("retry_counter".spec_bytes(), JsonSpec::Num(int_dec(s.retry_counter as int))),
            ("retry_show".spec_bytes(), JsonSpec::Str(strategy_bytes(s.retry_strategy))),
            ("result".spec_bytes(), output_json(out)),
        ])
    }
}

/// The entries whose success is not a full score.
pub open spec fn entries_not_perfect(es: Seq<TestResultSpec>) -> Seq<TestResultSpec>
    decreases es.len(),
{
    if es.len() == 0 {
        Seq::empty()
    } else {
        let front = entries_not_perfect(es.drop_last());
        if es.last().success != SCORE_ONE as int {
            front.push(es.last())
        } else {
            front
        }
    }
}

/// A composite with its full-score entries dropped; any other output
/// unchanged.
pub open spec fn strip_perfect(o: ResultOutputSpec) -> ResultOutputSpec {
    match o {
        ResultOutputSpec::Composite(es) => ResultOutputSpec::Composite(entries_not_perfect(es)),
        _ => o,
    }
}

/// True when every configured service is asked for: no names at all, or
/// exactly the one name `all`.
pub open spec fn select_all(names: Seq<Seq<u8>>) -> bool {
    names.len() == 0 || (names.len() == 1 && names[0] == "all".spec_bytes())
}

/// True when the selection matches at least one service.
pub open spec fn spec_any_selected(svcs: Seq<Service>, names: Seq<Seq<u8>>) -> bool {
    exists|i: int| 0 <= i < svcs.len()
        && (select_all(names) || names.contains((#[trigger] svcs[i]).name@))
}

/// The records of the selected services: those asked for by name (or all),
/// skipping full-score services when `errors` asks only for trouble, whose
/// composites then show only their troubled entries.
pub open spec fn spec_service_items(svcs: Seq<Service>, names: Seq<Seq<u8>>, short: bool, errors: bool) -> Seq<JsonSpec>
    decreases svcs.len(),
{
    if svcs.len() == 0 {
        Seq::empty()
    } else {
        let front = spec_service_items(svcs.drop_last(), names, short, errors);
        let s = svcs.last();
        let picked = (select_all(names) || names.contains(s.name@))
            && (!errors || s.successes.micros != SCORE_ONE);
        if picked {
            front.push(spec_service_json(s, short,
                if errors { strip_perfect(s.result@) } else { s.result@ }))
        } else {
            front
        }
    }
}

/// The reply to a `service` query.
pub open spec fn spec_service_reply(svcs: Seq<Service>, names: Seq<Seq<u8>>, short: bool, errors: bool) -> Seq<u8> {
    if !spec_any_selected(svcs, names) {
        "No services found".spec_bytes()
    } else {
        spec_render(JsonSpec::Arr(spec_service_items(svcs, names, short, errors)), true, 0)
    }
}

/// True when `nm` is one of the names.
fn name_in(names: &Vec<Vec<u8>>, nm: &[u8]) -> (r: bool)
    ensures r == Seq::new(names@.len(), |i: int| names@[i]@).contains(nm@),
{
    let ghost nv = Seq::new(names@.len(), |i: int| names@[i]@);
    let n = names.len();
    let mut i: usize = 0;
    while i < n
        invariant
            0 <= i <= n,
            n == names@.len(),
            nv == Seq::new(names@.len(), |t: int| names@[t]@),
            forall|t: int| 0 <= t < i ==> nv[t] != nm@,
        decreases n - i,
    {
        if bytes_eq(names[i].as_slice(), nm) {
            proof {
                assert(nv[i as int] == nm@);
            }
            return true;
        }
        i = i + 1;
    }
    proof {
        assert(!nv.contains(nm@));
    }
    false
}

/// The reply to `list`: the service names joined by a comma.
pub fn list_reply(services: &Vec<Service>) -> (r: Vec<u8>)
    ensures r@ == spec_list_reply(services@),
{
    let ghost nv = service_names(services@);
    let n = services.len();
    let mut out: Vec<u8> = Vec::new();
    let mut i: usize = 0;
    proof {
        assert(nv.take(0) =~= Seq::<Seq<u8>>::empty());
        assert(out@ =~= joined(nv.take(0), ", ".spec_bytes()));
    }
    while i < n
        invariant
            0 <= i <= n,
            n == services@.len(),
            nv == service_names(services@),
            nv.len() == n,
            out@ == joined(nv.take(i as int), ", ".spec_bytes()),
        decreases n - i,
    {
        proof {
            assert(nv.take(i as int + 1).drop_last() =~= nv.take(i as int));
            assert(nv.take(i as int + 1).last() == nv[i as int]);
            assert(nv[i as int] == services@[i as int].name@);
        }
        if i > 0 {
            push_bytes(&mut out, ", ".as_bytes());
        }
        push_bytes(&mut out, services[i].name.as_slice());
        i = i + 1;
    }
    proof {
        assert(nv.take(n as int) =~= nv);
    }
    out
}

/// The reply to `settings`: the global fields and one line per service.
#[verifier::rlimit(100)]
pub fn settings_reply(settings: &Settings) -> (r: Vec<u8>)
    requires
        settings.timeout.wf(),
        forall|i: int| 0 <= i < settings.services@.len()
            ==> (#[trigger] settings.services@[i]).timeout.wf(),
    ensures r@ == spec_settings_reply(*settings),
{
    let mut out: Vec<u8> = Vec::new();
    push_bytes(&mut out, "Check Interval: ".as_bytes());
    let mut d = u64_dec_digits(settings.interval);
    out.append(&mut d);
    push_bytes(&mut out, "\nTimeout: ".as_bytes());
    let mut d = settings.timeout.render_display();
    out.append(&mut d);
    push_bytes(&mut out, "\nSkip with no internet: ".as_bytes());
    push_bytes(&mut out, if settings.pause_on_no_internet { "true".as_bytes() } else { "false".as_bytes() });
    push_bytes(&mut out, "\nRetries: ".as_bytes());
    let mut d = i64_dec(settings.retry_counter);
    out.append(&mut d);
    push_bytes(&mut out, "\nRetry strategy: ".as_bytes());
    push_bytes(&mut out, settings.retry_strategy.as_str().as_bytes());
    push_bytes(&mut out, "\nServices:\n".as_bytes());
    let ghost lv = Seq::new(settings.services@.len(), |i: int| svc_line(settings.services@[i]));
    let svcs = &settings.services;
    let n = svcs.len();
    let ghost head = out@;
    let mut i: usize = 0;
    proof {
        assert(lv.take(0) =~= Seq::<Seq<u8>>::empty());
        assert(out@ =~= head + joined(lv.take(0), "\n".spec_bytes()));
    }
    while i < n
        invariant
            0 <= i <= n,
            n == settings.services@.len(),
            lv == Seq::new(settings.services@.len(), |t: int| svc_line(settings.services@[t])),
            lv.len() == n,
            svcs@ == settings.services@,
            forall|t: int| 0 <= t < n ==> (#[trigger] settings.services@[t]).timeout.wf(),
            out@ == head + joined(lv.take(i as int), "\n".spec_bytes()),
        decreases n - i,
    {
        proof {
            assert(lv.take(i as int + 1).drop_last() =~= lv.take(i as int));
            assert(lv.take(i as int + 1).last() == lv[i as int]);
            assert(lv[i as int] == svc_line(settings.services@[i as int]));
        }
        if i > 0 {
            push_bytes(&mut out, "\n".as_bytes());
        }
        let s = &svcs[i];
        push_bytes(&mut out, "name: ".as_bytes());
        push_bytes(&mut out, s.name.as_slice());
        push_bytes(&mut out, ", command: ".as_bytes());
        push_bytes(&mut out, s.command.as_slice());
        push_bytes(&mut out, ", interval: ".as_bytes());
        let mut d = u64_dec_digits(s.interval);
        out.append(&mut d);
        push_bytes(&mut out, ", timeout: ".as_bytes());
        let mut d = s.timeout.render_display();
        out.append(&mut d);
        push_bytes(&mut out, ", retry counter: ".as_bytes());
        let mut d = i64_dec(s.retry_counter);
        out.append(&mut d);
        i = i + 1;
    }
    proof {
        assert(lv.take(n as int) =~= lv);
    }
    push_bytes(&mut out, "\n".as_bytes());
    proof {
        assert(out@ =~= spec_settings_reply(*settings));
    }
    out
}


/// The composite entries whose success is not a full score, as values.
fn strip_output(o: &ResultOutput) -> (r: ResultOutput)
    requires o@.wf(),
    ensures
        r@ == strip_perfect(o@),
        r@.wf(),
{
    match o {
        ResultOutput::Composite(es) => {
            let ghost evs = entries_view(es@);
            let n = es.len();
            let mut kept: Vec<TestResult> = Vec::new();
            let mut i: usize = 0;
            proof {
                assert(evs.take(0) =~= Seq::<TestResultSpec>::empty());
                assert(entries_view(kept@) =~= entries_not_perfect(evs.take(0)));
            }
            while i < n
                invariant
                    0 <= i <= n,
                    n == es@.len(),
                    evs == entries_view(es@),
                    evs.len() == n,
                    crate::settings::entries_wf(evs),
                    entries_view(kept@) == entries_not_perfect(evs.take(i as int)),
                    crate::settings::entries_wf(entries_view(kept@)),
                decreases n - i,
            {
                proof {
                    assert(evs.take(i as int + 1).drop_last() =~= evs.take(i as int));
                    assert(evs.take(i as int + 1).last() == evs[i as int]);
                    assert(evs[i as int] == es@[i as int]@);
                }
                if es[i].success.micros != SCORE_ONE {
                    let ghost before = entries_view(kept@);
                    kept.push(crate::tester::clone_entry_pub(&es[i]));
                    proof {
                        assert(entries_view(kept@) =~= before.push(evs[i as int]));
                    }
                }
                i = i + 1;
            }
            proof {
                assert(evs.take(n as int) =~= evs);
            }
            ResultOutput::Composite(kept)
        },
        ResultOutput::Text(t) => ResultOutput::Text(copy_bytes(t.as_slice())),
        ResultOutput::Boolean(b) => ResultOutput::Boolean(*b),
        ResultOutput::Integer(i) => ResultOutput::Integer(*i),
        ResultOutput::Real(s) => ResultOutput::Real(*s),
        ResultOutput::Empty => ResultOutput::Empty,
    }
}

/// Appends one keyed value to an object's member list.
fn push_member(ms: &mut Vec<(Vec<u8>, Json)>, k: Vec<u8>, v: Json)
    ensures
        json_view_members(final(ms)@)
            == json_view_members(old(ms)@).push((k@, json_view(v))),
{
    let ghost kq = k@;
    let ghost vq = json_view(v);
    let ghost before = ms@;
    ms.push((k, v));
    proof {
        crate::json::lemma_view_members_index(ms@);
        crate::json::lemma_view_members_index(before);
        assert forall|t: int| 0 <= t < ms@.len()
            implies #[trigger] json_view_members(ms@)[t]
                == json_view_members(before).push((kq, vq))[t] by {
            if t < before.len() {
                assert(ms@[t] == before[t]);
            } else {
                assert(ms@[t] == ms@.last());
                assert(ms@.last().0@ == kq);
                assert(json_view(ms@.last().1) == vq);
            }
        }
        assert(json_view_members(ms@) =~= json_view_members(before).push((kq, vq)));
    }
}

/// The structured shape of one composite entry, as a value.
fn entry_to_json(e: &TestResult) -> (r: Json)
    requires -crate::score::SCORE_LIMIT <= e.success.micros <= crate::score::SCORE_LIMIT,
    ensures json_view(r) == entry_json(e@),
{
    let mut ms: Vec<(Vec<u8>, Json)> = Vec::new();
    proof {
        assert(json_view_members(ms@) =~= Seq::<(Seq<u8>, JsonSpec)>::empty());
    }
    push_member(&mut ms, copy_bytes("name".as_bytes()), Json::Str(copy_bytes(e.name.as_slice())));
    push_member(&mut ms, copy_bytes("success".as_bytes()), Json::Num(e.success.render_number()));
    push_member(&mut ms, copy_bytes("result".as_bytes()), e.result.deep_clone());
    let r = Json::Obj(ms);
    proof {
        assert(json_view_members(ms@) =~= entry_json(e@)->Obj_0);
    }
    r
}

/// The structured shape of a check output, as a value.
fn output_to_json(o: &ResultOutput) -> (r: Json)
    requires o@.wf(),
    ensures json_view(r) == output_json(o@),
{
    match o {
        ResultOutput::Text(t) => Json::Str(copy_bytes(t.as_slice())),
        ResultOutput::Boolean(b) => Json::Bool(*b),
        ResultOutput::Integer(i) => Json::Num(i64_dec(*i as i64)),
        ResultOutput::Real(s) => Json::Num(render_real(*s)),
        ResultOutput::Empty => Json::Null,
        ResultOutput::Composite(es) => {
            let ghost evs = entries_view(es@);
            let n = es.len();
            let mut vals: Vec<Json> = Vec::new();
            let mut i: usize = 0;
            proof {
                assert(json_view_seq(vals@) =~= Seq::<JsonSpec>::empty());
                assert(Seq::new(evs.len(), |t: int| entry_json(evs[t])).take(0) =~= Seq::<JsonSpec>::empty());
            }
            while i < n
                invariant
                    0 <= i <= n,
                    n == es@.len(),
                    evs == entries_view(es@),
                    evs.len() == n,
                    crate::settings::entries_wf(evs),
                    json_view_seq(vals@) == Seq::new(evs.len(), |t: int| entry_json(evs[t])).take(i as int),
                decreases n - i,
            {
                proof {
                    assert(evs[i as int] == es@[i as int]@);
                }
                let ghost before = vals@;
                let v = entry_to_json(&es[i]);
                vals.push(v);
                proof {
                    assert(vals@ =~= before.push(v));
                    crate::json::lemma_view_seq_snoc(before, v);
                    assert(Seq::new(evs.len(), |t: int| entry_json(evs[t])).take(i as int).push(json_view(v))
                        =~= Seq::new(evs.len(), |t: int| entry_json(evs[t])).take(i as int + 1));
                }
                i = i + 1;
            }
            proof {
                assert(Seq::new(evs.len(), |t: int| entry_json(evs[t])).take(n as int)
                    =~= Seq::new(evs.len(), |t: int| entry_json(evs[t])));
            }
            Json::Arr(vals)
        },
    }
}

/// The number text of a score, in the structured notation.
fn render_real(s: Score) -> (r: Vec<u8>)
    requires s.wf(),
    ensures r@ == spec_render_micros(s.micros as int, false),
{
    s.render_number()
}

/// The argument list as a structured value.
fn args_to_json(args: &Option<Vec<Vec<u8>>>) -> (r: Json)
    ensures json_view(r) == args_json(*args),
{
    match args {
        None => Json::Null,
        Some(v) => {
            let ghost av = Seq::new(v@.len(), |i: int| JsonSpec::Str(v@[i]@));
            let n = v.len();
            let mut vals: Vec<Json> = Vec::new();
            let mut i: usize = 0;
            proof {
                assert(json_view_seq(vals@) =~= av.take(0));
            }
            while i < n
                invariant
                    0 <= i <= n,
                    n == v@.len(),
                    av == Seq::new(v@.len(), |t: int| JsonSpec::Str(v@[t]@)),
                    av.len() == n,
                    json_view_seq(vals@) == av.take(i as int),
                decreases n - i,
            {
                let ghost before = vals@;
                let x = Json::Str(copy_bytes(v[i].as_slice()));
                vals.push(x);
                proof {
                    assert(vals@ =~= before.push(x));
                    crate::json::lemma_view_seq_snoc(before, x);
                    assert(av.take(i as int).push(json_view(x)) =~= av.take(i as int + 1));
                }
                i = i + 1;
            }
            proof {
                assert(av.take(n as int) =~= av);
            }
            Json::Arr(vals)
        },
    }
}

/// The structured record of one service, with `out` standing as its
/// latest result.
#[verifier::rlimit(100)]
fn service_to_json(s: &Service, short: bool, out: &ResultOutput) -> (r: Json)
    requires
        s.successes.wf(),
        s.timeout.wf(),
        out@.wf(),
    ensures json_view(r) == spec_service_json(*s, short, out@),
{
    let mut ms: Vec<(Vec<u8>, Json)> = Vec::new();
    proof {
        assert(json_view_members(ms@) =~= Seq::<(Seq<u8>, JsonSpec)>::empty());
    }
    if short {
        push_member(&mut ms, copy_bytes("args".as_bytes()), args_to_json(&s.args));
        push_member(&mut ms, copy_bytes("command".as_bytes()), Json::Str(copy_bytes(s.command.as_slice())));
        push_member(&mut ms, copy_bytes("interval".as_bytes()), Json::Num(u64_dec_digits(s.interval)));
        push_member(&mut ms, copy_bytes("name".as_bytes()), Json::Str(copy_bytes(s.name.as_slice())));
        push_member(&mut ms, copy_bytes("pause_on_no_internet".as_bytes()), Json::Bool(s.pause_on_no_internet));
        push_member(&mut ms, copy_bytes("successes".as_bytes()), Json::Num(s.successes.render_number()));
        push_member(&mut ms, copy_bytes("timeout".as_bytes()), Json::Num(s.timeout.render_number()));
        let r = Json::Obj(ms);
        proof {
            assert(json_view_members(ms@) =~= spec_service_json(*s, short, out@)->Obj_0);
        }
        r
    } else {
        push_member(&mut ms, copy_bytes("name".as_bytes()), Json::Str(copy_bytes(s.name.as_slice())));
        push_member(&mut ms, copy_bytes("command".as_bytes()), Json::Str(copy_bytes(s.command.as_slice())));
        push_member(&mut ms, copy_bytes("args".as_bytes()), args_to_json(&s.args));
        push_member(&mut ms, copy_bytes("interval".as_bytes()), Json::Num(u64_dec_digits(s.interval)));
        push_member(&mut ms, copy_bytes("timeout".as_bytes()), Json::Num(s.timeout.render_number()));
        push_member(&mut ms, copy_bytes("last_run".as_bytes()), match s.last_run {
            None => Json::Null,
            Some(ts) => Json::Num(i64_dec(ts)),
        });
        push_member(&mut ms, copy_bytes("successes".as_bytes()), Json::Num(s.successes.render_number()));
        push_member(&mut ms, copy_bytes("pause_on_no_internet".as_bytes()), Json::Bool(s.pause_on_no_internet));
        push_member(&mut ms, copy_bytes("retry_counter".as_bytes()), Json::Num(i64_dec(s.retry_counter)));
        push_member(&mut ms, copy_bytes("retry_show".as_bytes()), Json::Str(copy_bytes(s.retry_strategy.as_str().as_bytes())));
        push_member(&mut ms, copy_bytes("result".as_bytes()), output_to_json(out));
        let r = Json::Obj(ms);
        proof {
            assert(json_view_members(ms@) =~= spec_service_json(*s, short, out@)->Obj_0);
        }
        r
    }
}

/// The reply to a `service` query over the configured services.
pub fn service_reply(services: &Vec<Service>, names: &Vec<Vec<u8>>, short: bool, errors: bool) -> (r: Vec<u8>)
    requires
        forall|i: int| 0 <= i < services@.len() ==> (#[trigger] services@[i]).render_ready(),
    ensures
        r@ == spec_service_reply(services@, Seq::new(names@.len(), |i: int| names@[i]@), short, errors),
{
    let ghost nv = Seq::new(names@.len(), |i: int| names@[i]@);
    let all = names.len() == 0
        || (names.len() == 1 && bytes_eq(names[0].as_slice(), "all".as_bytes()));
    proof {
        if names@.len() > 0 {
            assert(nv[0] == names@[0]@);
        }
        assert(all == select_all(nv));
    }
    let n = services.len();
    let mut vals: Vec<Json> = Vec::new();
    let mut any = false;
    let mut i: usize = 0;
    proof {
        assert(json_view_seq(vals@) =~= Seq::<JsonSpec>::empty());
        assert(services@.take(0) =~= Seq::<Service>::empty());
    }
    while i < n
        invariant
            0 <= i <= n,
            n == services@.len(),
            nv == Seq::new(names@.len(), |t: int| names@[t]@),
            all == select_all(nv),
            forall|t: int| 0 <= t < n ==> (#[trigger] services@[t]).render_ready(),
            json_view_seq(vals@) == spec_service_items(services@.take(i as int), nv, short, errors),
            any <==> spec_any_selected(services@.take(i as int), nv),
        decreases n - i,
    {
        proof {
            assert(services@.take(i as int + 1).drop_last() =~= services@.take(i as int));
            assert(services@.take(i as int + 1).last() == services@[i as int]);
        }
        let s = &services[i];
        let selected = all || name_in(names, s.name.as_slice());
        if selected {
            any = true;
            proof {
                assert(services@.take(i as int + 1)[i as int] == services@[i as int]);
                assert(select_all(nv) || nv.contains(services@.take(i as int + 1)[i as int].name@));
                assert(spec_any_selected(services@.take(i as int + 1), nv));
            }
        } else {
            proof {
                if !any {
                    assert(!spec_any_selected(services@.take(i as int + 1), nv)) by {
                        assert forall|t: int| 0 <= t < i + 1
                            implies !(select_all(nv)
                                || nv.contains((#[trigger] services@.take(i as int + 1)[t]).name@)) by {
                            assert(services@.take(i as int + 1)[t] == services@[t]);
                            if t < i {
                                assert(services@.take(i as int)[t] == services@[t]);
                                assert(services@.take(i as int)[t].name@ == services@[t].name@);
                                assert(!(select_all(nv) || nv.contains(services@.take(i as int)[t].name@)));
                            }
                        }
                    }
                } else {
                    let u = choose|u: int| 0 <= u < services@.take(i as int).len()
                        && (select_all(nv) || nv.contains((#[trigger] services@.take(i as int)[u]).name@));
                    assert(services@.take(i as int)[u] == services@[u]);
                    assert(services@.take(i as int + 1)[u] == services@[u]);
                    assert(select_all(nv) || nv.contains(services@.take(i as int + 1)[u].name@));
                    assert(spec_any_selected(services@.take(i as int + 1), nv));
                }
            }
        }
        if selected && (!errors || s.successes.micros != SCORE_ONE) {
            let shaped: ResultOutput = if errors {
                strip_output(&s.result)
            } else {
                crate::tester::clone_output_pub(&s.result)
            };
            let ghost before = vals@;
            let v = service_to_json(s, short, &shaped);
            vals.push(v);
            proof {
                assert(vals@ =~= before.push(v));
                crate::json::lemma_view_seq_snoc(before, v);
                assert(json_view_seq(vals@)
                    =~= spec_service_items(services@.take(i as int + 1), nv, short, errors));
            }
        } else {
            proof {
                assert(json_view_seq(vals@)
                    =~= spec_service_items(services@.take(i as int + 1), nv, short, errors));
            }
        }
        i = i + 1;
    }
    proof {
        assert(services@.take(n as int) =~= services@);
    }
    if !any {
        return copy_bytes("No services found".as_bytes());
    }
    let arr = Json::Arr(vals);
    let mut out: Vec<u8> = Vec::new();
    arr.render_pretty(0, &mut out);
    proof {
        assert(out@ =~= spec_render(JsonSpec::Arr(spec_service_items(services@, nv, short, errors)), true, 0));
    }
    out
}

} // verus!


