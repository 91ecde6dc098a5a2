use vstd::prelude::*;

use crate::json::Json;
use crate::json::JsonSpec;
use crate::json::json_view;
use crate::json::json_view_seq;
use crate::json::json_view_members;
use crate::json::lex_lt;
use crate::json::lex_less;
use crate::json::bytes_eq;
use crate::json::spec_obj_get;
use crate::score::Score;
use crate::score::SCORE_ONE;
use crate::score::SCORE_LIMIT;
use crate::score::spec_parse_decimal;
use crate::service::copy_bytes;
use crate::settings::ResultOutput;
use crate::settings::ResultOutputSpec;
use crate::settings::TestResult;
use crate::settings::TestResultSpec;
use crate::settings::entries_view;
use crate::settings::entries_wf;
use vstd::string::StringSliceAdditionalSpecFns;

verus! {

/// Runs checks: it reads raw command output in either dialect, classifies
/// one attempt, and merges repeated attempts into one verdict.
pub struct Tester {}

/// Binds `k` to `v` in the key-ordered member list, replacing an existing
/// binding.
pub open spec fn obj_set(ms: Seq<(Seq<u8>, JsonSpec)>, k: Seq<u8>, v: JsonSpec) -> Seq<(Seq<u8>, JsonSpec)>
    decreases ms.len(),
{
    if ms.len() == 0 {
        seq![(k, v)]
    } else if k == ms[0].0 {
        seq![(k, v)] + ms.drop_first()
    } else if lex_lt(k, ms[0].0) {
        seq![(k, v)] + ms
    } else {
        seq![ms[0]] + obj_set(ms.drop_first(), k, v)
    }
}

/// The sub-result a candidate object describes: its `name` must be text,
/// its `success` a decimal in `[0, 1]` or a truth value, and a `result`
/// must be present; `None` when any of that fails.
pub open spec fn entry_of(t: JsonSpec) -> Option<TestResultSpec> {
    match spec_obj_get(t, "name".spec_bytes()) {
        Some(JsonSpec::Str(nm)) => {
            let su: Option<int> = match spec_obj_get(t, "success".spec_bytes()) {
                Some(JsonSpec::Num(lit)) => spec_parse_decimal(lit),
                Some(JsonSpec::Bool(b)) => Some(if b { SCORE_ONE as int } else { 0 }),
                _ => None,
            };
            match su {
                Some(m) => {
                    if 0 <= m <= SCORE_ONE as int {
                        match spec_obj_get(t, "result".spec_bytes()) {
                            Some(p) => Some(TestResultSpec { name: nm, success: m, result: p }),
                            None => None,
                        }
                    } else {
                        None
                    }
                },
                None => None,
            }
        },
        _ => None,
    }
}

/// The sub-results of the candidates, in order, skipping the faulty ones.
pub open spec fn valid_entries(ts: Seq<JsonSpec>) -> Seq<TestResultSpec>
    decreases ts.len(),
{
    if ts.len() == 0 {
        Seq::empty()
    } else {
        let front = valid_entries(ts.drop_last());
        match entry_of(ts.last()) {
            Some(e) => front.push(e),
            None => front,
        }
    }
}

/// True when every value of the member list is itself an object.
pub open spec fn all_values_objects(ms: Seq<(Seq<u8>, JsonSpec)>) -> bool {
    forall|i: int| 0 <= i < ms.len() ==> (#[trigger] ms[i]).1 is Obj
}

/// A sub-object with its key written into its `name` member.
pub open spec fn named_test(k: Seq<u8>, sub: JsonSpec) -> JsonSpec {
    match sub {
        JsonSpec::Obj(sms) => JsonSpec::Obj(obj_set(sms, "name".spec_bytes(), JsonSpec::Str(k))),
        _ => sub,
    }
}

/// The candidate objects of a structured root: a map whose values are all
/// objects becomes one candidate per key, any other object is the single
/// candidate, and a list contributes its elements.
pub open spec fn json_tests(v: JsonSpec) -> Seq<JsonSpec> {
    match v {
        JsonSpec::Obj(ms) => {
            if all_values_objects(ms) {
                Seq::new(ms.len(), |i: int| named_test(ms[i].0, ms[i].1))
            } else {
                seq![v]
            }
        },
        JsonSpec::Arr(es) => es,
        _ => Seq::empty(),
    }
}

/// The structured output the first dialect reads from a parsed root: the
/// valid sub-results as a composite, or `Boolean(false)` when none is
/// valid.
pub open spec fn spec_format_json(v: JsonSpec) -> ResultOutputSpec {
    let entries = valid_entries(json_tests(v));
    if entries.len() > 0 {
        ResultOutputSpec::Composite(entries)
    } else {
        ResultOutputSpec::Boolean(false)
    }
}

/// Every valid sub-result's success lies in `[0, 1]`.
pub proof fn lemma_valid_entries_range(ts: Seq<JsonSpec>)
    ensures
        forall|i: int| 0 <= i < valid_entries(ts).len()
            ==> 0 <= (#[trigger] valid_entries(ts)[i]).success <= SCORE_ONE as int,
    decreases ts.len(),
{
    if ts.len() > 0 {
        lemma_valid_entries_range(ts.drop_last());
    }
}

/// Binds `k` to `v` in the key-ordered member list, replacing an existing
/// binding.
fn obj_set_exec(ms: Vec<(Vec<u8>, Json)>, k: Vec<u8>, v: Json) -> (r: Vec<(Vec<u8>, Json)>)
    ensures json_view_members(r@) == obj_set(json_view_members(ms@), k@, json_view(v)),
    decreases ms@.len(),
{
    let ghost msq = ms@;
    if ms.len() == 0 {
        let mut r: Vec<(Vec<u8>, Json)> = Vec::new();
        r.push((k, v));
        proof {
            assert(r@ =~= seq![(k, v)] + Seq::<(Vec<u8>, Json)>::empty());
            crate::json::lemma_view_members_cons((k, v), Seq::empty());
            assert(json_view_members(r@) =~= obj_set(json_view_members(msq), k@, json_view(v)));
        }
        r
    } else {
        let mut ms = ms;
        let (k0, v0) = ms.remove(0);
        let ghost tail0 = ms@;
        proof {
            assert(ms@ =~= msq.drop_first());
            assert(seq![(k0, v0)] + ms@ =~= msq);
            crate::json::lemma_view_members_cons((k0, v0), ms@);
            assert(json_view_members(msq) == seq![(k0@, json_view(v0))] + json_view_members(tail0));
            assert(json_view_members(msq).drop_first() =~= json_view_members(tail0));
            assert(json_view_members(msq)[0] == (k0@, json_view(v0)));
        }
        if bytes_eq(k.as_slice(), k0.as_slice()) {
            let ghost vv = json_view(v);
            ms.insert(0, (k, v));
            proof {
                assert(ms@ =~= seq![(k, v)] + tail0);
                crate::json::lemma_view_members_cons((k, v), tail0);
                assert(json_view_members(ms@) =~= obj_set(json_view_members(msq), k@, vv));
            }
            ms
        } else if lex_less(k.as_slice(), k0.as_slice()) {
            let ghost vv = json_view(v);
            ms.insert(0, (k0, v0));
            proof {
                assert(ms@ =~= seq![(k0, v0)] + tail0);
                assert(ms@ =~= msq);
            }
            let ghost whole = ms@;
            ms.insert(0, (k, v));
            proof {
                assert(ms@ =~= seq![(k, v)] + whole);
                crate::json::lemma_view_members_cons((k, v), whole);
                assert(json_view_members(ms@) =~= obj_set(json_view_members(msq), k@, vv));
            }
            ms
        } else {
            let ghost kq = k@;
            let ghost vv = json_view(v);
            let mut r = obj_set_exec(ms, k, v);
            let ghost rq = r@;
            r.insert(0, (k0, v0));
            proof {
                assert(r@ =~= seq![(k0, v0)] + rq);
                crate::json::lemma_view_members_cons((k0, v0), rq);
                assert(json_view_members(r@) =~= obj_set(json_view_members(msq), kq, vv));
            }
            r
        }
    }
}

/// The sub-result a candidate object describes, or `None` when it is
/// faulty.
fn extract_entry(t: &Json) -> (r: Option<TestResult>)
    ensures
        match r {
            Some(e) => entry_of(t@) == Some(e@) && 0 <= e.success.micros <= SCORE_ONE,
            None => entry_of(t@) is None,
        },
{
    let name: Vec<u8> = match t.obj_get("name".as_bytes()) {
        Some(Json::Str(nm)) => copy_bytes(nm.as_slice()),
        _ => { return None; },
    };
    let success: Score = match t.obj_get("success".as_bytes()) {
        Some(Json::Num(lit)) => match Score::parse_decimal(lit.as_slice()) {
            Some(sc) => sc,
            None => { return None; },
        },
        Some(Json::Bool(b)) => Score { micros: if *b { SCORE_ONE } else { 0 } },
        _ => { return None; },
    };
    if success.micros < 0 || success.micros > SCORE_ONE {
        return None;
    }
    let payload: Json = match t.obj_get("result".as_bytes()) {
        Some(p) => p.deep_clone(),
        None => { return None; },
    };
    Some(TestResult { name, success, result: payload })
}

/// One valid candidate appended at a time gathers the valid sub-results.
proof fn lemma_valid_entries_snoc(ts: Seq<JsonSpec>, i: int)
    requires 0 <= i < ts.len(),
    ensures
        valid_entries(ts.take(i + 1)) == (match entry_of(ts[i]) {
            Some(e) => valid_entries(ts.take(i)).push(e),
            None => valid_entries(ts.take(i)),
        }),
{
    assert(ts.take(i + 1).drop_last() =~= ts.take(i));
    assert(ts.take(i + 1).last() == ts[i]);
}

impl Tester {
    /// The structured output the first dialect reads from a parsed root.
    /// The root must be an object or a list.
    pub fn format_json(value: &Json) -> (r: ResultOutput)
        requires value@ is Obj || value@ is Arr,
        ensures
            r@ == spec_format_json(value@),
            r@.wf(),
    {
        let ghost tests_spec = json_tests(value@);
        let mut entries: Vec<TestResult> = Vec::new();
        proof {
            assert(entries_view(entries@) =~= Seq::<TestResultSpec>::empty());
        }
        match value {
            Json::Obj(ms) => {
                let ghost views = json_view_members(ms@);
                proof {
                    crate::json::lemma_view_members_index(ms@);
                }
                let n = ms.len();
                let mut all_obj = true;
                let mut i: usize = 0;
                while i < n
                    invariant
                        0 <= i <= n,
                        n == ms@.len(),
                        views == json_view_members(ms@),
                        views.len() == n,
                        forall|t: int| 0 <= t < n
                            ==> views[t] == ((#[trigger] ms@[t]).0@, json_view(ms@[t].1)),
                        all_obj <==> (forall|t: int| 0 <= t < i ==> (#[trigger] views[t]).1 is Obj),
                    decreases n - i,
                {
                    let is_obj = match &ms[i].1 {
                        Json::Obj(_) => true,
                        Json::Null => false,
                        Json::Bool(_) => false,
                        Json::Num(_) => false,
                        Json::Str(_) => false,
                        Json::Arr(_) => false,
                    };
                    if !is_obj {
                        all_obj = false;
                    }
                    i = i + 1;
                }
                if all_obj {
                    proof {
                        assert(all_values_objects(views));
                        assert(tests_spec =~= Seq::new(views.len(), |t: int| named_test(views[t].0, views[t].1)));
                    }
                    let mut i: usize = 0;
                    proof {
                        assert(tests_spec.take(0) =~= Seq::<JsonSpec>::empty());
                    }
                    while i < n
                        invariant
                            0 <= i <= n,
                            n == ms@.len(),
                            views == json_view_members(ms@),
                            views.len() == n,
                            forall|t: int| 0 <= t < n
                                ==> views[t] == ((#[trigger] ms@[t]).0@, json_view(ms@[t].1)),
                            tests_spec.len() == n,
                            forall|t: int| 0 <= t < n
                                ==> tests_spec[t] == named_test((#[trigger] views[t]).0, views[t].1),
                            entries_view(entries@) == valid_entries(tests_spec.take(i as int)),
                            entries_wf(entries_view(entries@)),
                        decreases n - i,
                    {
                        let named: Json = match &ms[i].1 {
                            Json::Obj(sms) => {
                                let sub = crate::json::clone_members(sms);
                                proof {
                                    assert(json_view(ms@[i as int].1) == JsonSpec::Obj(json_view_members(sms@)));
                                }
                                Json::Obj(obj_set_exec(sub, copy_bytes("name".as_bytes()), Json::Str(copy_bytes(ms[i].0.as_slice()))))
                            },
                            _ => ms[i].1.deep_clone(),
                        };
                        proof {
                            assert(named@ == named_test(views[i as int].0, views[i as int].1));
                            assert(tests_spec[i as int] == named_test(views[i as int].0, views[i as int].1));
                        }
                        let ghost before = entries@;
                        match extract_entry(&named) {
                            Some(e) => {
                                entries.push(e);
                                proof {
                                    assert(entries@ =~= before.push(e));
                                    assert(entries_view(entries@) =~= entries_view(before).push(e@));
                                }
                            },
                            None => {},
                        }
                        proof {
                            lemma_valid_entries_snoc(tests_spec, i as int);
                        }
                        i = i + 1;
                    }
                    proof {
                        assert(tests_spec.take(n as int) =~= tests_spec);
                    }
                } else {
                    // a plain object: the single candidate
                    proof {
                        assert(tests_spec =~= seq![value@]);
                    }
                    let ghost before = entries@;
                    match extract_entry(value) {
                        Some(e) => {
                            entries.push(e);
                            proof {
                                assert(entries@ =~= before.push(e));
                                assert(entries_view(entries@) =~= entries_view(before).push(e@));
                            }
                        },
                        None => {},
                    }
                    proof {
                        assert(tests_spec.drop_last() =~= Seq::<JsonSpec>::empty());
                        assert(tests_spec.last() == value@);
                        assert(valid_entries(tests_spec.drop_last()) =~= Seq::<TestResultSpec>::empty());
                        assert(entries_view(entries@) =~= valid_entries(tests_spec));
                    }
                }
            },
            Json::Arr(es) => {
                let ghost views = json_view_seq(es@);
                proof {
                    crate::json::lemma_view_seq_index(es@);
                    assert(tests_spec == views);
                    assert(tests_spec.take(0) =~= Seq::<JsonSpec>::empty());
                }
                let n = es.len();
                let mut i: usize = 0;
                while i < n
                    invariant
                        0 <= i <= n,
                        n == es@.len(),
                        views == json_view_seq(es@),
                        views.len() == n,
                        tests_spec == views,
                        forall|t: int| 0 <= t < n ==> views[t] == json_view(#[trigger] es@[t]),
                        entries_view(entries@) == valid_entries(tests_spec.take(i as int)),
                        entries_wf(entries_view(entries@)),
                    decreases n - i,
                {
                    let ghost before = entries@;
                    match extract_entry(&es[i]) {
                        Some(e) => {
                            entries.push(e);
                            proof {
                                assert(entries@ =~= before.push(e));
                                assert(entries_view(entries@) =~= entries_view(before).push(e@));
                            }
                        },
                        None => {},
                    }
                    proof {
                        lemma_valid_entries_snoc(tests_spec, i as int);
                    }
                    i = i + 1;
                }
                proof {
                    assert(tests_spec.take(n as int) =~= tests_spec);
                }
            },
            Json::Null => {
                proof { assert(false); }
            },
            Json::Bool(_) => {
                proof { assert(false); }
            },
            Json::Num(_) => {
                proof { assert(false); }
            },
            Json::Str(_) => {
                proof { assert(false); }
            },
        }
        if entries.len() > 0 {
            proof {
                assert(entries_view(entries@).len() > 0);
            }
            ResultOutput::Composite(entries)
        } else {
            proof {
                assert(entries_view(entries@).len() == 0);
            }
            ResultOutput::Boolean(false)
        }
    }
}


/// The first position at or after `i` that holds a line feed, or the end.
pub open spec fn scan_nl(s: Seq<u8>, i: int) -> int
    decreases s.len() - i,
{
    if 0 <= i < s.len() && s[i] != 10 {
        scan_nl(s, i + 1)
    } else {
        i
    }
}

/// The lines of `s` from position `i` on: split at line feeds, with one
/// trailing carriage return stripped from each piece, and no empty last
/// line after a trailing line feed.
pub open spec fn spec_lines_from(s: Seq<u8>, i: int) -> Seq<Seq<u8>>
    decreases s.len() - i,
{
    if i < 0 || i >= s.len() {
        Seq::empty()
    } else {
        let k = scan_nl(s, i);
        let raw = s.subrange(i, k);
        let line = if raw.len() > 0 && raw.last() == 13 { raw.drop_last() } else { raw };
        if i <= k < s.len() {
            seq![line] + spec_lines_from(s, k + 1)
        } else {
            seq![line]
        }
    }
}

/// The state of the block reader: whether the running block's name and
/// its success were read, whether the block turned out faulty, the fields
/// read so far, and the finished sub-results.
pub struct PlainState {
    pub found_name: bool,
    pub found_success: bool,
    pub faulty: bool,
    pub name: Seq<u8>,
    pub success: int,
    pub builder: Seq<u8>,
    pub acc: Seq<TestResultSpec>,
}

/// The reader's starting state.
pub open spec fn plain_init() -> PlainState {
    PlainState {
        found_name: false,
        found_success: false,
        faulty: false,
        name: Seq::empty(),
        success: 0,
        builder: Seq::empty(),
        acc: Seq::empty(),
    }
}

/// The payload a gathered text denotes: the structured value it parses
/// as, or the text itself.
pub open spec fn plain_payload(builder: Seq<u8>) -> JsonSpec {
    match crate::json::spec_parse_json(builder) {
        Some(v) => v,
        None => JsonSpec::Str(builder),
    }
}

/// The running block, finished: it joins the results when both its name
/// and its success were read, and is dropped whole otherwise.
pub open spec fn plain_finish(st: PlainState) -> Seq<TestResultSpec> {
    if st.found_success {
        st.acc.push(TestResultSpec {
            name: st.name,
            success: st.success,
            result: plain_payload(st.builder),
        })
    } else {
        st.acc
    }
}

/// One line fed to the block reader. An empty line ends the running
/// block. Otherwise the block's first line is its name; its second line
/// must read as a decimal or a truth value and is the success — a block
/// whose second line reads as neither is faulty and will be dropped; and
/// every later line joins the payload.
pub open spec fn plain_step(st: PlainState, line: Seq<u8>) -> PlainState {
    if line.len() == 0 {
        PlainState {
            found_name: false,
            found_success: false,
            faulty: false,
            name: Seq::empty(),
            success: 0,
            builder: Seq::empty(),
            acc: plain_finish(st),
        }
    } else if !st.found_name {
        PlainState { found_name: true, name: line, ..st }
    } else if !st.found_success && !st.faulty {
        match spec_parse_decimal(line) {
            Some(m) => PlainState { found_success: true, success: m, ..st },
            None => {
                if line == "true".spec_bytes() {
                    PlainState { found_success: true, success: SCORE_ONE as int, ..st }
                } else if line == "false".spec_bytes() {
                    PlainState { found_success: true, success: 0, ..st }
                } else {
                    PlainState { faulty: true, ..st }
                }
            },
        }
    } else {
        PlainState { builder: st.builder + line, ..st }
    }
}

/// The reader's state after all the lines.
pub open spec fn plain_fold(lines: Seq<Seq<u8>>, st: PlainState) -> PlainState
    decreases lines.len(),
{
    if lines.len() == 0 {
        st
    } else {
        plain_step(plain_fold(lines.drop_last(), st), lines.last())
    }
}

/// The structured output the plain dialect reads from raw text: the
/// finished blocks as a composite, the text itself when no block
/// finished, and nothing for empty text.
pub open spec fn spec_format_plain(s: Seq<u8>) -> ResultOutputSpec {
    let acc = plain_finish(plain_fold(spec_lines_from(s, 0), plain_init()));
    if acc.len() > 0 {
        ResultOutputSpec::Composite(acc)
    } else if s.len() > 0 {
        ResultOutputSpec::Text(s)
    } else {
        ResultOutputSpec::Empty
    }
}

/// The lines a list of byte strings holds.
pub open spec fn lines_view(ls: Seq<Vec<u8>>) -> Seq<Seq<u8>> {
    Seq::new(ls.len(), |i: int| ls[i]@)
}

/// The exclusive end of the line starting at `i`.
fn scan_nl_run(s: &[u8], i: usize) -> (r: usize)
    requires i <= s@.len(),
    ensures
        r as int == scan_nl(s@, i as int),
        i <= r <= s@.len(),
        r < s@.len() ==> s@[r as int] == 10,
{
    let n = s.len();
    let mut j = i;
    while j < n && s[j] != 10
        invariant
            i <= j <= n,
            n == s@.len(),
            scan_nl(s@, i as int) == scan_nl(s@, j as int),
        decreases n - j,
    {
        j = j + 1;
    }
    j
}

/// The lines of `s`: split at line feeds, with one trailing carriage
/// return stripped from each, and no empty last line after a trailing
/// line feed.
pub fn split_lines(s: &[u8]) -> (r: Vec<Vec<u8>>)
    ensures lines_view(r@) == spec_lines_from(s@, 0),
{
    let n = s.len();
    let mut out: Vec<Vec<u8>> = Vec::new();
    let mut pos: usize = 0;
    proof {
        assert(lines_view(out@) =~= Seq::<Seq<u8>>::empty());
        assert(Seq::<Seq<u8>>::empty() + spec_lines_from(s@, 0) =~= spec_lines_from(s@, 0));
    }
    while pos < n
        invariant
            0 <= pos <= n,
            n == s@.len(),
            spec_lines_from(s@, 0) == lines_view(out@) + spec_lines_from(s@, pos as int),
        decreases n - pos,
    {
        let k = scan_nl_run(s, pos);
        let mut raw: Vec<u8> = Vec::new();
        crate::score::collect_range(s, pos, k, &mut raw);
        let ghost rawq = s@.subrange(pos as int, k as int);
        if raw.len() > 0 && raw[raw.len() - 1] == 13 {
            let _ = raw.pop();
            proof {
                assert(raw@ =~= rawq.drop_last());
            }
        }
        let ghost before = out@;
        let ghost lineq = raw@;
        out.push(raw);
        let next: usize = if k < n { k + 1 } else { n };
        proof {
            assert(lines_view(out@) =~= lines_view(before).push(lineq));
            if k < n {
                assert(spec_lines_from(s@, pos as int) == seq![lineq] + spec_lines_from(s@, k as int + 1));
            } else {
                assert(spec_lines_from(s@, pos as int) == seq![lineq]);
                assert(spec_lines_from(s@, n as int) =~= Seq::<Seq<u8>>::empty());
                assert(seq![lineq] + spec_lines_from(s@, n as int) =~= seq![lineq]);
            }
            assert(spec_lines_from(s@, pos as int) == seq![lineq] + spec_lines_from(s@, next as int));
            assert(lines_view(before).push(lineq) =~= lines_view(before) + seq![lineq]);
            assert((lines_view(before) + seq![lineq]) + spec_lines_from(s@, next as int)
                =~= lines_view(before) + (seq![lineq] + spec_lines_from(s@, next as int)));
        }
        pos = next;
    }
    proof {
        assert(spec_lines_from(s@, pos as int) =~= Seq::<Seq<u8>>::empty());
        assert(lines_view(out@) + Seq::<Seq<u8>>::empty() =~= lines_view(out@));
    }
    out
}

/// One line fed at a time folds the whole list.
proof fn lemma_plain_fold_snoc(lines: Seq<Seq<u8>>, i: int)
    requires 0 <= i < lines.len(),
    ensures
        plain_fold(lines.take(i + 1), plain_init())
            == plain_step(plain_fold(lines.take(i), plain_init()), lines[i]),
{
    assert(lines.take(i + 1).drop_last() =~= lines.take(i));
    assert(lines.take(i + 1).last() == lines[i]);
}

impl Tester {
    /// The structured output the plain dialect reads from raw text.
    pub fn format_plain(value: &[u8]) -> (r: ResultOutput)
        ensures
            r@ == spec_format_plain(value@),
            r@.wf(),
    {
        let lines = split_lines(value);
        let ghost lv = lines_view(lines@);
        let n = lines.len();
        let mut found_name = false;
        let mut found_success = false;
        let mut faulty = false;
        let mut name: Vec<u8> = Vec::new();
        let mut success: i64 = 0;
        let mut builder: Vec<u8> = Vec::new();
        let mut acc: Vec<TestResult> = Vec::new();
        let mut i: usize = 0;
        proof {
            assert(lv.take(0) =~= Seq::<Seq<u8>>::empty());
            assert(entries_view(acc@) =~= Seq::<TestResultSpec>::empty());
            assert(name@ =~= Seq::<u8>::empty());
            assert(builder@ =~= Seq::<u8>::empty());
        }
        while i < n
            invariant
                0 <= i <= n,
                n == lines@.len(),
                lv == lines_view(lines@),
                lv.len() == n,
                ({
                    let st = plain_fold(lv.take(i as int), plain_init());
                    &&& st.found_name == found_name
                    &&& st.found_success == found_success
                    &&& st.faulty == faulty
                    &&& st.name == name@
                    &&& st.success == success as int
                    &&& st.builder == builder@
                    &&& st.acc == entries_view(acc@)
                }),
                -SCORE_LIMIT <= success <= SCORE_LIMIT,
                entries_wf(entries_view(acc@)),
            decreases n - i,
        {
            proof {
                lemma_plain_fold_snoc(lv, i as int);
                assert(lv[i as int] == lines@[i as int]@);
            }
            let line: &Vec<u8> = &lines[i];
            if line.len() == 0 {
                if found_success {
                    let payload: Json = match Json::parse(builder.as_slice()) {
                        Some(v) => v,
                        None => Json::Str(builder),
                    };
                    let ghost before = entries_view(acc@);
                    acc.push(TestResult { name, success: Score { micros: success }, result: payload });
                    proof {
                        assert(entries_view(acc@) =~= before.push(acc@.last()@));
                    }
                    name = Vec::new();
                } else {
                    name = Vec::new();
                }
                found_name = false;
                found_success = false;
                faulty = false;
                builder = Vec::new();
                success = 0;
                proof {
                    assert(name@ =~= Seq::<u8>::empty());
                    assert(builder@ =~= Seq::<u8>::empty());
                }
            } else if !found_name {
                name = copy_bytes(line.as_slice());
                found_name = true;
            } else if !found_success && !faulty {
                match Score::parse_decimal(line.as_slice()) {
                    Some(sc) => {
                        success = sc.micros;
                        found_success = true;
                    },
                    None => {
                        if bytes_eq(line.as_slice(), "true".as_bytes()) {
                            success = SCORE_ONE;
                            found_success = true;
                        } else if bytes_eq(line.as_slice(), "false".as_bytes()) {
                            success = 0;
                            found_success = true;
                        } else {
                            faulty = true;
                        }
                    },
                }
            } else {
                crate::score::collect_range(line.as_slice(), 0, line.len(), &mut builder);
                proof {
                    assert(line@.subrange(0, line@.len() as int) =~= line@);
                }
            }
            i = i + 1;
        }
        proof {
            assert(lv.take(n as int) =~= lv);
        }
        if found_success {
            let payload: Json = match Json::parse(builder.as_slice()) {
                Some(v) => v,
                None => Json::Str(builder),
            };
            let ghost before = entries_view(acc@);
            acc.push(TestResult { name, success: Score { micros: success }, result: payload });
            proof {
                assert(entries_view(acc@) =~= before.push(acc@.last()@));
            }
        }
        if acc.len() > 0 {
            proof {
                assert(entries_view(acc@).len() > 0);
            }
            ResultOutput::Composite(acc)
        } else if value.len() > 0 {
            ResultOutput::Text(copy_bytes(value))
        } else {
            proof {
                assert(entries_view(acc@).len() == 0);
            }
            ResultOutput::Empty
        }
    }
}

/// What one spawn of the command came to: the spawn failed with the
/// system's error text, or the process exited with a code (or none, when
/// a signal ended it and `status_text` describes how), and its captured
/// output streams.
pub enum SpawnOutcome {
    SpawnFailed(Vec<u8>),
    Exited { code: Option<i32>, status_text: Vec<u8>, stdout: Vec<u8>, stderr: Vec<u8> },
}

/// The mathematical shape of a `SpawnOutcome`.
pub enum SpawnOutcomeSpec {
    SpawnFailed(Seq<u8>),
    Exited { code: Option<int>, status_text: Seq<u8>, stdout: Seq<u8>, stderr: Seq<u8> },
}

impl View for SpawnOutcome {
    type V = SpawnOutcomeSpec;

    open spec fn view(&self) -> SpawnOutcomeSpec {
        match self {
            SpawnOutcome::SpawnFailed(msg) => SpawnOutcomeSpec::SpawnFailed(msg@),
            SpawnOutcome::Exited { code, status_text, stdout, stderr } => SpawnOutcomeSpec::Exited {
                code: match code {
                    Some(c) => Some(*c as int),
                    None => None,
                },
                status_text: status_text@,
                stdout: stdout@,
                stderr: stderr@,
            },
        }
    }
}

/// The score and structured output one attempt classifies to: a failed
/// spawn or a non-zero exit is a zero-score text taken from the standard
/// error stream, then standard output, then the exit code or the status
/// text; a clean exit has its standard output read as structured text
/// when it parses as an object or a list, as an error text when it parses
/// as any other structured value, and in the plain dialect otherwise.
pub open spec fn spec_classify(o: SpawnOutcomeSpec) -> (int, ResultOutputSpec) {
    match o {
        SpawnOutcomeSpec::SpawnFailed(msg) => {
            (0, ResultOutputSpec::Text("Internal error: ".spec_bytes() + msg))
        },
        SpawnOutcomeSpec::Exited { code, status_text, stdout, stderr } => {
            if code != Some(0int) {
                let res: ResultOutputSpec = if stderr.len() > 0 {
                    ResultOutputSpec::Text(stderr)
                } else if stdout.len() > 0 {
                    ResultOutputSpec::Text(stdout)
                } else {
                    match code {
                        Some(c) => ResultOutputSpec::Text(
                            "Exited with non-zero code: ".spec_bytes() + crate::score::int_dec(c)),
                        None => ResultOutputSpec::Text(status_text),
                    }
                };
                (0, res)
            } else {
                match crate::json::spec_parse_json(stdout) {
                    Some(v) => {
                        if v is Obj || v is Arr {
                            let out = spec_format_json(v);
                            (out.to_score(), out)
                        } else {
                            (0, ResultOutputSpec::Text("Output must be an object or an array".spec_bytes()))
                        }
                    },
                    None => {
                        let out = spec_format_plain(stdout);
                        (out.to_score(), out)
                    },
                }
            }
        },
    }
}

/// Reading lines keeps the block reader's scores within the limit.
proof fn lemma_plain_fold_wf(lines: Seq<Seq<u8>>, st: PlainState)
    requires
        entries_wf(st.acc),
        -SCORE_LIMIT <= st.success <= SCORE_LIMIT,
    ensures
        entries_wf(plain_fold(lines, st).acc),
        -SCORE_LIMIT <= plain_fold(lines, st).success <= SCORE_LIMIT,
    decreases lines.len(),
{
    if lines.len() > 0 {
        lemma_plain_fold_wf(lines.drop_last(), st);
        let pre = plain_fold(lines.drop_last(), st);
        let post = plain_step(pre, lines.last());
        assert(entries_wf(post.acc)) by {
            assert(forall|i: int| 0 <= i < pre.acc.len() ==> post.acc[i] == pre.acc[i]);
        }
    }
}

/// The plain dialect's output is well formed.
proof fn lemma_format_plain_wf(s: Seq<u8>)
    ensures spec_format_plain(s).wf(),
{
    lemma_plain_fold_wf(spec_lines_from(s, 0), plain_init());
    let st = plain_fold(spec_lines_from(s, 0), plain_init());
    if st.found_success {
        let pushed = st.acc.push(TestResultSpec {
            name: st.name,
            success: st.success,
            result: plain_payload(st.builder),
        });
        assert(entries_wf(pushed)) by {
            assert(forall|i: int| 0 <= i < st.acc.len() ==> pushed[i] == st.acc[i]);
        }
    }
}

/// The first dialect's output is well formed.
proof fn lemma_format_json_wf(v: JsonSpec)
    ensures spec_format_json(v).wf(),
{
    lemma_valid_entries_range(json_tests(v));
}

/// A classified attempt's output is well formed and its score lies within
/// the limit.
proof fn lemma_classified_wf(o: SpawnOutcomeSpec)
    ensures
        spec_classify(o).1.wf(),
        -SCORE_LIMIT <= spec_classify(o).0 <= SCORE_LIMIT,
{
    match o {
        SpawnOutcomeSpec::SpawnFailed(_) => {},
        SpawnOutcomeSpec::Exited { code, status_text, stdout, stderr } => {
            if code == Some(0int) {
                match crate::json::spec_parse_json(stdout) {
                    Some(v) => {
                        if v is Obj || v is Arr {
                            lemma_format_json_wf(v);
                            lemma_valid_entries_range(json_tests(v));
                            lemma_output_score_range(spec_format_json(v));
                        }
                    },
                    None => {
                        lemma_format_plain_wf(stdout);
                        lemma_output_score_range(spec_format_plain(stdout));
                    },
                }
            }
        },
    }
}

/// A well-formed output resolves to a score within the limit.
proof fn lemma_output_score_range(out: ResultOutputSpec)
    requires out.wf() || (out matches ResultOutputSpec::Composite(es) && entries_wf(es)),
    ensures
        out matches ResultOutputSpec::Composite(es)
            ==> -SCORE_LIMIT <= out.to_score() <= SCORE_LIMIT,
{
    match out {
        ResultOutputSpec::Composite(es) => {
            crate::settings::lemma_composite_sum_bound_pub(es);
            let n = es.len() as int;
            if n > 0 {
                let s = crate::settings::composite_sum(es);
                if s >= 0 {
                    assert(0 <= s / n <= SCORE_LIMIT as int) by (nonlinear_arith)
                        requires 0 <= s <= n * (SCORE_LIMIT as int) && n >= 1;
                } else {
                    assert(0 <= (-s) / n <= SCORE_LIMIT as int) by (nonlinear_arith)
                        requires 0 <= -s <= n * (SCORE_LIMIT as int) && n >= 1;
                }
            }
        },
        _ => {},
    }
}

/// Joins the left text to the right one in a fresh buffer.
fn concat_bytes(a: &[u8], b: &[u8]) -> (r: Vec<u8>)
    ensures r@ == a@ + b@,
{
    let mut out = copy_bytes(a);
    crate::score::collect_range(b, 0, b.len(), &mut out);
    proof {
        assert(b@.subrange(0, b@.len() as int) =~= b@);
        assert(out@ =~= a@ + b@);
    }
    out
}

impl Tester {
    /// The score and structured output one attempt classifies to.
    pub fn classify(outcome: &SpawnOutcome) -> (r: (Score, ResultOutput))
        ensures
            r.0.micros as int == spec_classify(outcome@).0,
            r.1@ == spec_classify(outcome@).1,
            r.1@.wf(),
            r.0.wf(),
    {
        proof {
            lemma_classified_wf(outcome@);
        }
        match outcome {
            SpawnOutcome::SpawnFailed(msg) => {
                let text = concat_bytes("Internal error: ".as_bytes(), msg.as_slice());
                (Score { micros: 0 }, ResultOutput::Text(text))
            },
            SpawnOutcome::Exited { code, status_text, stdout, stderr } => {
                let code_is_zero = match code {
                    Some(c) => *c == 0,
                    None => false,
                };
                if !code_is_zero {
                    let res: ResultOutput = if stderr.len() > 0 {
                        ResultOutput::Text(copy_bytes(stderr.as_slice()))
                    } else if stdout.len() > 0 {
                        ResultOutput::Text(copy_bytes(stdout.as_slice()))
                    } else {
                        match code {
                            Some(c) => {
                                let num = crate::score::i64_dec(*c as i64);
                                ResultOutput::Text(concat_bytes("Exited with non-zero code: ".as_bytes(), num.as_slice()))
                            },
                            None => ResultOutput::Text(copy_bytes(status_text.as_slice())),
                        }
                    };
                    (Score { micros: 0 }, res)
                } else {
                    match Json::parse(stdout.as_slice()) {
                        Some(v) => {
                            let shaped = match &v {
                                Json::Obj(_) => true,
                                Json::Arr(_) => true,
                                _ => false,
                            };
                            if shaped {
                                let out = Tester::format_json(&v);
                                let sc = out.to_successes();
                                (sc, out)
                            } else {
                                (Score { micros: 0 },
                                 ResultOutput::Text(copy_bytes("Output must be an object or an array".as_bytes())))
                            }
                        },
                        None => {
                            let out = Tester::format_plain(stdout.as_slice());
                            let sc = out.to_successes();
                            (sc, out)
                        },
                    }
                }
            },
        }
    }
}


use crate::retry_strategy::RetryStrategy;

/// The scores and output shapes of a list of attempts.
pub open spec fn attempts_view(s: Seq<(Score, ResultOutput)>) -> Seq<(int, ResultOutputSpec)> {
    Seq::new(s.len(), |i: int| (s[i].0.micros as int, s[i].1@))
}

/// The first position of the attempt with the greatest score.
pub open spec fn best_idx(rs: Seq<(int, ResultOutputSpec)>) -> int
    decreases rs.len(),
{
    if rs.len() <= 1 {
        0
    } else {
        let b = best_idx(rs.drop_last());
        if rs.last().0 > rs[b].0 {
            rs.len() - 1
        } else {
            b
        }
    }
}

/// The first position of the attempt with the least score.
pub open spec fn worst_idx(rs: Seq<(int, ResultOutputSpec)>) -> int
    decreases rs.len(),
{
    if rs.len() <= 1 {
        0
    } else {
        let b = worst_idx(rs.drop_last());
        if rs[b].0 > rs.last().0 {
            rs.len() - 1
        } else {
            b
        }
    }
}

/// `x` put before the first element with a greater score.
pub open spec fn sorted_ins(s: Seq<(int, ResultOutputSpec)>, x: (int, ResultOutputSpec)) -> Seq<(int, ResultOutputSpec)>
    decreases s.len(),
{
    if s.len() == 0 {
        seq![x]
    } else if s[0].0 <= x.0 {
        seq![s[0]] + sorted_ins(s.drop_first(), x)
    } else {
        seq![x] + s
    }
}

/// The attempts ordered by score, equals kept in their given order.
pub open spec fn isort(s: Seq<(int, ResultOutputSpec)>) -> Seq<(int, ResultOutputSpec)>
    decreases s.len(),
{
    if s.len() == 0 {
        Seq::empty()
    } else {
        sorted_ins(isort(s.drop_last()), s.last())
    }
}

/// True when no attempt carries a composite with entries.
pub open spec fn no_composite(rs: Seq<(int, ResultOutputSpec)>) -> bool {
    forall|i: int| 0 <= i < rs.len() ==> match (#[trigger] rs[i]).1 {
        ResultOutputSpec::Composite(es) => es.len() == 0,
        _ => true,
    }
}

/// The gathered entries with `e` merged in: a first entry of the same
/// name is replaced when `e` beats it (greater success when `high`, lower
/// otherwise, never on a tie), and `e` joins the end when its name is
/// new.
pub open spec fn merge_one(acc: Seq<TestResultSpec>, e: TestResultSpec, high: bool) -> Seq<TestResultSpec>
    decreases acc.len(),
{
    if acc.len() == 0 {
        seq![e]
    } else if acc[0].name == e.name {
        if (high && e.success > acc[0].success) || (!high && acc[0].success > e.success) {
            seq![e] + acc.drop_first()
        } else {
            acc
        }
    } else {
        seq![acc[0]] + merge_one(acc.drop_first(), e, high)
    }
}

/// The gathered entries with a composite's entries merged in, in order.
pub open spec fn merge_entries(acc: Seq<TestResultSpec>, es: Seq<TestResultSpec>, high: bool) -> Seq<TestResultSpec>
    decreases es.len(),
{
    if es.len() == 0 {
        acc
    } else {
        merge_one(merge_entries(acc, es.drop_last(), high), es.last(), high)
    }
}

/// The per-name selection over every attempt's composite entries, in
/// first-seen name order.
pub open spec fn merge_attempts(rs: Seq<(int, ResultOutputSpec)>, high: bool) -> Seq<TestResultSpec>
    decreases rs.len(),
{
    if rs.len() == 0 {
        Seq::empty()
    } else {
        let front = merge_attempts(rs.drop_last(), high);
        match rs.last().1 {
            ResultOutputSpec::Composite(es) => merge_entries(front, es, high),
            _ => front,
        }
    }
}

/// The merged verdict of the attempts under a strategy: the first best,
/// the first worst, the middle by score, or the per-name merge of the
/// composites (falling back to best or worst when no attempt carries
/// composite entries).
pub open spec fn spec_combine(rs: Seq<(int, ResultOutputSpec)>, st: RetryStrategy) -> (int, ResultOutputSpec) {
    match st {
        RetryStrategy::Best => rs[best_idx(rs)],
        RetryStrategy::Worst => rs[worst_idx(rs)],
        RetryStrategy::Median => isort(rs)[rs.len() as int / 2],
        RetryStrategy::CombinedBest => {
            if no_composite(rs) {
                rs[best_idx(rs)]
            } else {
                let m = merge_attempts(rs, true);
                (ResultOutputSpec::Composite(m).to_score(), ResultOutputSpec::Composite(m))
            }
        },
        RetryStrategy::CombinedWorst => {
            if no_composite(rs) {
                rs[worst_idx(rs)]
            } else {
                let m = merge_attempts(rs, false);
                (ResultOutputSpec::Composite(m).to_score(), ResultOutputSpec::Composite(m))
            }
        },
    }
}

/// Every attempt's output is well formed and its score lies within the
/// limit.
pub open spec fn attempts_wf(rs: Seq<(int, ResultOutputSpec)>) -> bool {
    forall|i: int| 0 <= i < rs.len()
        ==> (#[trigger] rs[i]).1.wf() && -SCORE_LIMIT <= rs[i].0 <= SCORE_LIMIT
}

/// The scanned index really is the first extreme one.
proof fn lemma_best_idx_bounds(rs: Seq<(int, ResultOutputSpec)>, high: bool)
    requires rs.len() > 0,
    ensures
        ({
            let b = if high { best_idx(rs) } else { worst_idx(rs) };
            &&& 0 <= b < rs.len()
            &&& forall|j: int| 0 <= j < rs.len()
                ==> (if high { (#[trigger] rs[j]).0 <= rs[b].0 } else { rs[b].0 <= (#[trigger] rs[j]).0 })
            &&& forall|j: int| 0 <= j < b
                ==> (if high { (#[trigger] rs[j]).0 < rs[b].0 } else { rs[b].0 < (#[trigger] rs[j]).0 })
        }),
    decreases rs.len(),
{
    if rs.len() > 1 {
        lemma_best_idx_bounds(rs.drop_last(), high);
        assert(forall|j: int| 0 <= j < rs.len() - 1 ==> rs.drop_last()[j] == rs[j]);
    }
}

/// A copy of a sub-result.
pub fn clone_entry_pub(e: &TestResult) -> (r: TestResult)
    ensures r@ == e@,
{
    TestResult {
        name: copy_bytes(e.name.as_slice()),
        success: e.success,
        result: e.result.deep_clone(),
    }
}

/// The position of the first attempt with the greatest (or least) score.
fn scan_extreme(results: &Vec<(Score, ResultOutput)>, high: bool) -> (r: usize)
    requires results@.len() > 0,
    ensures
        r as int == if high { best_idx(attempts_view(results@)) } else { worst_idx(attempts_view(results@)) },
        r < results@.len(),
{
    let ghost rs = attempts_view(results@);
    let n = results.len();
    let mut b: usize = 0;
    let mut j: usize = 1;
    proof {
        assert(rs.take(1).len() == 1);
        assert(best_idx(rs.take(1)) == 0);
        assert(worst_idx(rs.take(1)) == 0);
    }
    while j < n
        invariant
            1 <= j <= n,
            0 <= b < j,
            n == results@.len(),
            rs == attempts_view(results@),
            rs.len() == n,
            b as int == if high { best_idx(rs.take(j as int)) } else { worst_idx(rs.take(j as int)) },
        decreases n - j,
    {
        proof {
            assert(rs.take(j as int + 1).drop_last() =~= rs.take(j as int));
            assert(rs.take(j as int + 1).last() == rs[j as int]);
            assert(rs[j as int] == (results@[j as int].0.micros as int, results@[j as int].1@));
            assert(rs[b as int] == (results@[b as int].0.micros as int, results@[b as int].1@));
            assert(forall|t: int| 0 <= t < j ==> rs.take(j as int)[t] == rs[t]);
        }
        let better = if high {
            results[j].0.micros > results[b].0.micros
        } else {
            results[b].0.micros > results[j].0.micros
        };
        if better {
            b = j;
        }
        j = j + 1;
    }
    proof {
        assert(rs.take(n as int) =~= rs);
    }
    b
}

impl Tester {
    /// The merged verdict of the attempts under a strategy.
    pub fn combine_results(results: Vec<(Score, ResultOutput)>, retry_strategy: &RetryStrategy) -> (r: (Score, ResultOutput))
        requires
            results@.len() > 0,
            attempts_wf(attempts_view(results@)),
        ensures
            ({
                let c = spec_combine(attempts_view(results@), *retry_strategy);
                &&& r.0.micros as int == c.0
                &&& r.1@ == c.1
                &&& r.1@.wf()
            }),
    {
        let ghost rs = attempts_view(results@);
        match retry_strategy {
            RetryStrategy::Best => {
                let b = scan_extreme(&results, true);
                let mut results = results;
                let (s, o) = results.remove(b);
                proof {
                    assert(rs[b as int] == ((s.micros as int, o@)));
                    assert(rs[best_idx(rs)].1.wf());
                }
                (s, o)
            },
            RetryStrategy::Worst => {
                let b = scan_extreme(&results, false);
                let mut results = results;
                let (s, o) = results.remove(b);
                proof {
                    assert(rs[b as int] == ((s.micros as int, o@)));
                    assert(rs[worst_idx(rs)].1.wf());
                }
                (s, o)
            },
            RetryStrategy::Median => {
                let sorted = sort_attempts(results);
                let mid = sorted.len() / 2;
                let mut sorted = sorted;
                proof {
                    lemma_isort_len(rs);
                    assert(attempts_view(sorted@)[mid as int] == (sorted@[mid as int].0.micros as int, sorted@[mid as int].1@));
                    lemma_isort_wf(rs);
                }
                let (s, o) = sorted.remove(mid);
                (s, o)
            },
            RetryStrategy::CombinedBest => Tester::combined(results, true),
            RetryStrategy::CombinedWorst => Tester::combined(results, false),
        }
    }

    /// The per-name merge of the attempts' composites, or the plain best
    /// or worst attempt when none carries composite entries.
    fn combined(results: Vec<(Score, ResultOutput)>, high: bool) -> (r: (Score, ResultOutput))
        requires
            results@.len() > 0,
            attempts_wf(attempts_view(results@)),
        ensures
            ({
                let c = if no_composite(attempts_view(results@)) {
                    if high {
                        attempts_view(results@)[best_idx(attempts_view(results@))]
                    } else {
                        attempts_view(results@)[worst_idx(attempts_view(results@))]
                    }
                } else {
                    let m = merge_attempts(attempts_view(results@), high);
                    (ResultOutputSpec::Composite(m).to_score(), ResultOutputSpec::Composite(m))
                };
                &&& r.0.micros as int == c.0
                &&& r.1@ == c.1
                &&& r.1@.wf()
            }),
    {
        let ghost rs = attempts_view(results@);
        let n = results.len();
        let mut any = false;
        let mut i: usize = 0;
        while i < n
            invariant
                0 <= i <= n,
                n == results@.len(),
                rs == attempts_view(results@),
                rs.len() == n,
                any <==> !(forall|t: int| 0 <= t < i ==> match (#[trigger] rs[t]).1 {
                    ResultOutputSpec::Composite(es) => es.len() == 0,
                    _ => true,
                }),
            decreases n - i,
        {
            proof {
                assert(rs[i as int] == (results@[i as int].0.micros as int, results@[i as int].1@));
            }
            match &results[i].1 {
                ResultOutput::Composite(es) => {
                    if es.len() > 0 {
                        any = true;
                    }
                },
                _ => {},
            }
            i = i + 1;
        }
        if !any {
            proof {
                assert(no_composite(rs));
            }
            let b = scan_extreme(&results, high);
            let mut results = results;
            let (s, o) = results.remove(b);
            proof {
                assert(rs[b as int] == ((s.micros as int, o@)));
                lemma_best_idx_bounds(rs, high);
                assert(rs[b as int].1.wf());
            }
            return (s, o);
        }
        proof {
            assert(!no_composite(rs));
        }
        let mut acc: Vec<TestResult> = Vec::new();
        let mut i: usize = 0;
        proof {
            assert(rs.take(0) =~= Seq::<(int, ResultOutputSpec)>::empty());
            assert(entries_view(acc@) =~= Seq::<TestResultSpec>::empty());
        }
        while i < n
            invariant
                0 <= i <= n,
                n == results@.len(),
                rs == attempts_view(results@),
                rs.len() == n,
                attempts_wf(rs),
                entries_view(acc@) == merge_attempts(rs.take(i as int), high),
                entries_wf(entries_view(acc@)),
            decreases n - i,
        {
            proof {
                assert(rs.take(i as int + 1).drop_last() =~= rs.take(i as int));
                assert(rs.take(i as int + 1).last() == rs[i as int]);
                assert(rs[i as int] == (results@[i as int].0.micros as int, results@[i as int].1@));
            }
            match &results[i].1 {
                ResultOutput::Composite(es) => {
                    let ghost evs = entries_view(es@);
                    let m = es.len();
                    let mut k: usize = 0;
                    proof {
                        assert(rs[i as int].1 == ResultOutputSpec::Composite(evs));
                        assert(evs.take(0) =~= Seq::<TestResultSpec>::empty());
                        assert(entries_wf(evs));
                    }
                    while k < m
                        invariant
                            0 <= k <= m,
                            m == es@.len(),
                            evs == entries_view(es@),
                            evs.len() == m,
                            entries_wf(evs),
                            entries_view(acc@) == merge_entries(merge_attempts(rs.take(i as int), high), evs.take(k as int), high),
                            entries_wf(entries_view(acc@)),
                            rs == attempts_view(results@),
                            merge_attempts(rs.take(i as int), high) == merge_attempts(rs.take(i as int), high),
                        decreases m - k,
                    {
                        proof {
                            assert(evs.take(k as int + 1).drop_last() =~= evs.take(k as int));
                            assert(evs.take(k as int + 1).last() == evs[k as int]);
                            assert(evs[k as int] == es@[k as int]@);
                        }
                        merge_one_exec(&mut acc, &es[k], high);
                        k = k + 1;
                    }
                    proof {
                        assert(evs.take(m as int) =~= evs);
                    }
                },
                _ => {},
            }
            i = i + 1;
        }
        proof {
            assert(rs.take(n as int) =~= rs);
        }
        let out = ResultOutput::Composite(acc);
        let sc = out.to_successes();
        (sc, out)
    }
}

/// Merges one entry into the gathered ones.
fn merge_one_exec(acc: &mut Vec<TestResult>, e: &TestResult, high: bool)
    requires
        entries_wf(entries_view(old(acc)@)),
        -SCORE_LIMIT <= e@.success <= SCORE_LIMIT,
    ensures
        entries_view(final(acc)@) == merge_one(entries_view(old(acc)@), e@, high),
        entries_wf(entries_view(final(acc)@)),
{
    let ghost accq = entries_view(old(acc)@);
    proof {
        assert(entries_wf(accq));
    }
    let n = acc.len();
    let mut j: usize = 0;
    while j < n
        invariant
            0 <= j <= n,
            n == acc@.len(),
            acc@ == old(acc)@,
            accq == entries_view(acc@),
            accq.len() == n,
            entries_wf(accq),
            -SCORE_LIMIT <= e@.success <= SCORE_LIMIT,
            forall|t: int| 0 <= t < j ==> (#[trigger] accq[t]).name != e@.name,
        decreases n - j,
    {
        proof {
            assert(accq[j as int] == acc@[j as int]@);
        }
        if bytes_eq(acc[j].name.as_slice(), e.name.as_slice()) {
            let replace = if high {
                e.success.micros > acc[j].success.micros
            } else {
                acc[j].success.micros > e.success.micros
            };
            proof {
                assert(accq.skip(j as int)[0] == accq[j as int]);
                assert(accq.skip(j as int).len() > 0);
                assert(acc@[j as int].name@ == e.name@);
                assert(accq[j as int].name == e@.name);
            }
            if replace {
                let c = clone_entry_pub(e);
                let ghost before = acc@;
                acc.set(j, c);
                proof {
                    assert(acc@ =~= before.update(j as int, c));
                    assert forall|t: int| 0 <= t < accq.len()
                        implies #[trigger] entries_view(acc@)[t] == accq.update(j as int, e@)[t] by {
                        assert(acc@[t] == before.update(j as int, c)[t]);
                        if t == j as int {
                            assert(before.update(j as int, c)[t] == c);
                            assert(accq.update(j as int, e@)[t] == e@);
                        } else {
                            assert(before.update(j as int, c)[t] == before[t]);
                            assert(accq.update(j as int, e@)[t] == accq[t]);
                            assert(accq[t] == before[t]@);
                        }
                    }
                    assert(entries_view(acc@) =~= accq.update(j as int, e@));
                    assert(accq.skip(j as int).drop_first() =~= accq.skip(j as int + 1));
                    assert(merge_one_from(accq, e@, high, j as int) == seq![e@] + accq.skip(j as int + 1));
                    assert(entries_view(acc@) =~= accq.take(j as int) + (seq![e@] + accq.skip(j as int + 1)));
                    lemma_merge_one_prefix(accq, e@, high, j as int);
                    assert(entries_wf(entries_view(acc@))) by {
                        assert forall|t: int| 0 <= t < entries_view(acc@).len()
                            implies -SCORE_LIMIT <= (#[trigger] entries_view(acc@)[t]).success <= SCORE_LIMIT by {
                            assert(entries_view(acc@)[t] == accq.update(j as int, e@)[t]);
                            if t != j as int {
                                assert(accq.update(j as int, e@)[t] == accq[t]);
                            } else {
                                assert(accq.update(j as int, e@)[t] == e@);
                            }
                        }
                    }
                }
            } else {
                proof {
                    assert(merge_one_from(accq, e@, high, j as int) == accq.skip(j as int));
                    assert(accq.take(j as int) + accq.skip(j as int) =~= accq);
                    lemma_merge_one_prefix(accq, e@, high, j as int);
                }
            }
            return;
        }
        proof {
            assert(accq.skip(j as int)[0] == accq[j as int]);
            assert(accq.skip(j as int).drop_first() =~= accq.skip(j as int + 1));
        }
        j = j + 1;
    }
    let c = clone_entry_pub(e);
    let ghost before = acc@;
    acc.push(c);
    proof {
        assert(accq.skip(n as int) =~= Seq::<TestResultSpec>::empty());
        assert(merge_one_from(accq, e@, high, n as int) == seq![e@]);
        assert(entries_view(acc@) =~= entries_view(before).push(e@));
        assert(accq.take(n as int) =~= accq);
        assert(accq + seq![e@] =~= accq.push(e@));
        lemma_merge_one_prefix(accq, e@, high, n as int);
        assert(entries_view(acc@) =~= accq.take(n as int) + seq![e@]);
    }
}

/// The merge of `e` into the entries from position `j` on.
pub open spec fn merge_one_from(acc: Seq<TestResultSpec>, e: TestResultSpec, high: bool, j: int) -> Seq<TestResultSpec> {
    merge_one(acc.skip(j), e, high)
}

/// The merge splits at the first position whose name decides it.
proof fn lemma_merge_one_prefix(acc: Seq<TestResultSpec>, e: TestResultSpec, high: bool, j: int)
    requires
        0 <= j <= acc.len(),
        forall|t: int| 0 <= t < j ==> (#[trigger] acc[t]).name != e.name,
    ensures
        merge_one(acc, e, high) == acc.take(j) + merge_one(acc.skip(j), e, high),
    decreases j,
{
    if j == 0 {
        assert(acc.skip(0) =~= acc);
        assert(acc.take(0) + merge_one(acc.skip(0), e, high) =~= merge_one(acc, e, high));
    } else {
        lemma_merge_one_prefix(acc.drop_first(), e, high, j - 1);
        assert(forall|t: int| 0 <= t < j - 1 ==> acc.drop_first()[t] == acc[t + 1]);
        assert(acc.drop_first().take(j - 1) =~= acc.take(j).drop_first());
        assert(acc.drop_first().skip(j - 1) =~= acc.skip(j));
        assert(acc[0].name != e.name);
        assert(merge_one(acc, e, high) == seq![acc[0]] + merge_one(acc.drop_first(), e, high));
        assert(seq![acc[0]] + (acc.drop_first().take(j - 1) + merge_one(acc.skip(j), e, high))
            =~= acc.take(j) + merge_one(acc.skip(j), e, high));
    }
}

/// Ordering the attempts keeps their count.
proof fn lemma_isort_len(rs: Seq<(int, ResultOutputSpec)>)
    ensures isort(rs).len() == rs.len(),
    decreases rs.len(),
{
    if rs.len() > 0 {
        lemma_isort_len(rs.drop_last());
        lemma_sorted_ins_len(isort(rs.drop_last()), rs.last());
    }
}

/// Inserting one attempt grows the ordered list by one.
proof fn lemma_sorted_ins_len(s: Seq<(int, ResultOutputSpec)>, x: (int, ResultOutputSpec))
    ensures sorted_ins(s, x).len() == s.len() + 1,
    decreases s.len(),
{
    if s.len() > 0 && s[0].0 <= x.0 {
        lemma_sorted_ins_len(s.drop_first(), x);
    }
}

/// Ordering the attempts keeps them well formed.
proof fn lemma_isort_wf(rs: Seq<(int, ResultOutputSpec)>)
    requires attempts_wf(rs),
    ensures attempts_wf(isort(rs)),
    decreases rs.len(),
{
    if rs.len() > 0 {
        assert(attempts_wf(rs.drop_last())) by {
            assert(forall|t: int| 0 <= t < rs.len() - 1 ==> rs.drop_last()[t] == rs[t]);
        }
        lemma_isort_wf(rs.drop_last());
        lemma_sorted_ins_wf(isort(rs.drop_last()), rs.last());
    }
}

/// Inserting a well-formed attempt keeps the ordered list well formed.
proof fn lemma_sorted_ins_wf(s: Seq<(int, ResultOutputSpec)>, x: (int, ResultOutputSpec))
    requires
        attempts_wf(s),
        x.1.wf(),
        -SCORE_LIMIT <= x.0 <= SCORE_LIMIT,
    ensures attempts_wf(sorted_ins(s, x)),
    decreases s.len(),
{
    if s.len() == 0 {
        assert(sorted_ins(s, x) =~= seq![x]);
    } else if s[0].0 <= x.0 {
        assert(attempts_wf(s.drop_first())) by {
            assert(forall|t: int| 0 <= t < s.len() - 1 ==> s.drop_first()[t] == s[t + 1]);
        }
        lemma_sorted_ins_wf(s.drop_first(), x);
        let inner = sorted_ins(s.drop_first(), x);
        assert(forall|t: int| 0 <= t < inner.len() ==> (seq![s[0]] + inner)[t + 1] == inner[t]);
        assert(attempts_wf(seq![s[0]] + inner)) by {
            assert(forall|t: int| 0 <= t < (seq![s[0]] + inner).len()
                ==> ((#[trigger] (seq![s[0]] + inner)[t]).1.wf()
                    && -SCORE_LIMIT <= (seq![s[0]] + inner)[t].0 <= SCORE_LIMIT)) by {
                assert(forall|t: int| 1 <= t < (seq![s[0]] + inner).len()
                    ==> (seq![s[0]] + inner)[t] == inner[t - 1]);
            }
        }
    } else {
        assert(forall|t: int| 1 <= t < (seq![x] + s).len() ==> (seq![x] + s)[t] == s[t - 1]);
    }
}

/// The attempts ordered by score, equal scores kept in their given order.
fn sort_attempts(results: Vec<(Score, ResultOutput)>) -> (r: Vec<(Score, ResultOutput)>)
    ensures attempts_view(r@) == isort(attempts_view(results@)),
{
    let ghost rs = attempts_view(results@);
    let n = results.len();
    let mut results = results;
    let mut out: Vec<(Score, ResultOutput)> = Vec::new();
    let mut i: usize = 0;
    proof {
        assert(rs.take(0) =~= Seq::<(int, ResultOutputSpec)>::empty());
        assert(attempts_view(out@) =~= Seq::<(int, ResultOutputSpec)>::empty());
    }
    while i < n
        invariant
            0 <= i <= n,
            results@.len() == n - i,
            rs.len() == n,
            forall|t: int| 0 <= t < n - i
                ==> ((#[trigger] results@[t]).0.micros as int, results@[t].1@) == rs[t + i],
            attempts_view(out@) == isort(rs.take(i as int)),
        decreases n - i,
    {
        let x = results.remove(0);
        let ghost xs = (x.0.micros as int, x.1@);
        proof {
            assert(xs == rs[i as int]);
            assert(rs.take(i as int + 1).drop_last() =~= rs.take(i as int));
            assert(rs.take(i as int + 1).last() == rs[i as int]);
        }
        let ghost sorted_before = attempts_view(out@);
        // find the first position whose score is greater
        let m = out.len();
        let mut j: usize = 0;
        while j < m && out[j].0.micros <= x.0.micros
            invariant
                0 <= j <= m,
                m == out@.len(),
                sorted_before == attempts_view(out@),
                xs == (x.0.micros as int, x.1@),
                forall|t: int| 0 <= t < j ==> (#[trigger] sorted_before[t]).0 <= xs.0,
            decreases m - j,
        {
            proof {
                assert(sorted_before[j as int] == (out@[j as int].0.micros as int, out@[j as int].1@));
            }
            j = j + 1;
        }
        proof {
            if j < m {
                assert(sorted_before[j as int] == (out@[j as int].0.micros as int, out@[j as int].1@));
            }
            lemma_sorted_ins_at(sorted_before, xs, j as int);
        }
        let ghost before_ins = out@;
        out.insert(j, x);
        proof {
            assert(out@ =~= before_ins.take(j as int) + seq![x] + before_ins.skip(j as int));
            assert(attempts_view(out@) =~= sorted_before.take(j as int) + seq![xs] + sorted_before.skip(j as int));
        }
        i = i + 1;
    }
    proof {
        assert(rs.take(n as int) =~= rs);
    }
    out
}

/// Insertion lands just before the first greater score.
proof fn lemma_sorted_ins_at(s: Seq<(int, ResultOutputSpec)>, x: (int, ResultOutputSpec), j: int)
    requires
        0 <= j <= s.len(),
        forall|t: int| 0 <= t < j ==> (#[trigger] s[t]).0 <= x.0,
        j < s.len() ==> s[j].0 > x.0,
    ensures
        sorted_ins(s, x) == s.take(j) + seq![x] + s.skip(j),
    decreases j,
{
    if j == 0 {
        if s.len() == 0 {
            assert(sorted_ins(s, x) =~= s.take(0) + seq![x] + s.skip(0));
        } else {
            assert(s.take(0) + seq![x] + s.skip(0) =~= seq![x] + s);
        }
    } else {
        lemma_sorted_ins_at(s.drop_first(), x, j - 1);
        assert(forall|t: int| 0 <= t < j - 1 ==> s.drop_first()[t] == s[t + 1]);
        assert(s.drop_first().take(j - 1) =~= s.take(j).drop_first());
        assert(s.drop_first().skip(j - 1) =~= s.skip(j));
        assert(s[0].0 <= x.0);
        assert(sorted_ins(s, x) == seq![s[0]] + sorted_ins(s.drop_first(), x));
        assert(seq![s[0]] + (s.drop_first().take(j - 1) + seq![x] + s.skip(j))
            =~= s.take(j) + seq![x] + s.skip(j));
    }
}


use crate::service::Service;

/// The shapes of a list of spawn outcomes.
pub open spec fn outcomes_view(s: Seq<SpawnOutcome>) -> Seq<SpawnOutcomeSpec> {
    Seq::new(s.len(), |i: int| s[i]@)
}

/// True of the strategies a perfect attempt cannot be beaten under, so
/// further attempts may be skipped.
pub open spec fn spec_bestish(st: RetryStrategy) -> bool {
    st == RetryStrategy::Best || st == RetryStrategy::CombinedBest || st == RetryStrategy::Median
}

impl Tester {
    /// True when the retry policy returns this attempt at once: only one
    /// attempt is configured, or the attempt is perfect under a strategy
    /// no further attempt can improve.
    pub fn returns_attempt(retry_counter: i64, score: &Score, strategy: &RetryStrategy) -> (r: bool)
        ensures
            r == (retry_counter == 0 || (score.micros == SCORE_ONE && spec_bestish(*strategy))),
    {
        if retry_counter == 0 {
            return true;
        }
        let bestish = match strategy {
            RetryStrategy::Best => true,
            RetryStrategy::CombinedBest => true,
            RetryStrategy::Median => true,
            RetryStrategy::Worst => false,
            RetryStrategy::CombinedWorst => false,
        };
        score.micros == SCORE_ONE && bestish
    }
}

/// The verdict of running the attempts from position `i` with the earlier
/// attempts `acc`: a single configured attempt is returned as it is; a
/// perfect attempt under a best-seeking strategy is returned at once; and
/// the last attempt merges them all.
pub open spec fn spec_run(outs: Seq<SpawnOutcomeSpec>, st: RetryStrategy, i: int, acc: Seq<(int, ResultOutputSpec)>) -> (int, ResultOutputSpec)
    decreases outs.len() - i,
{
    if i < 0 || i >= outs.len() {
        (0, ResultOutputSpec::Empty)
    } else {
        let a = spec_classify(outs[i]);
        if outs.len() == 1 {
            a
        } else if a.0 == SCORE_ONE as int && spec_bestish(st) {
            a
        } else if i == outs.len() - 1 {
            spec_combine(acc.push(a), st)
        } else {
            spec_run(outs, st, i + 1, acc.push(a))
        }
    }
}

/// The verdict of a whole check cycle over the attempts, under a
/// strategy.
pub open spec fn spec_test(outs: Seq<SpawnOutcomeSpec>, st: RetryStrategy) -> (int, ResultOutputSpec) {
    spec_run(outs, st, 0, Seq::empty())
}

impl Tester {
    /// The verdict of one whole check cycle of `service`, over what its
    /// spawns came to: one outcome per configured attempt, of which only
    /// a prefix may be read when the policy stops early.
    pub fn test(service: &Service, outcomes: &Vec<SpawnOutcome>) -> (r: (Score, ResultOutput))
        requires
            service.retry_counter >= 0,
            outcomes@.len() == service.retry_counter + 1,
        ensures
            ({
                let v = spec_test(outcomes_view(outcomes@), service.retry_strategy);
                &&& r.0.micros as int == v.0
                &&& r.1@ == v.1
                &&& r.1@.wf()
            }),
    {
        let ghost ov = outcomes_view(outcomes@);
        let n = outcomes.len();
        let st = service.retry_strategy;
        let retry_counter = service.retry_counter;
        let mut acc: Vec<(Score, ResultOutput)> = Vec::new();
        let mut i: usize = 0;
        proof {
            assert(attempts_view(acc@) =~= Seq::<(int, ResultOutputSpec)>::empty());
        }
        loop
            invariant
                0 <= i < n,
                n == outcomes@.len(),
                ov == outcomes_view(outcomes@),
                ov.len() == n,
                st == service.retry_strategy,
                retry_counter == service.retry_counter,
                n as int == retry_counter + 1,
                acc@.len() == i,
                attempts_wf(attempts_view(acc@)),
                spec_test(ov, st) == spec_run(ov, st, i as int, attempts_view(acc@)),
            decreases n - i,
        {
            proof {
                assert(ov[i as int] == outcomes@[i as int]@);
            }
            let (s, o) = Tester::classify(&outcomes[i]);
            if Tester::returns_attempt(retry_counter, &s, &st) {
                return (s, o);
            }
            let ghost before = attempts_view(acc@);
            acc.push((s, o));
            proof {
                assert(attempts_view(acc@) =~= before.push((s.micros as int, acc@.last().1@)));
                assert(attempts_wf(attempts_view(acc@))) by {
                    assert(forall|t: int| 0 <= t < before.len()
                        ==> attempts_view(acc@)[t] == before[t]);
                }
            }
            if i == n - 1 {
                let r = Tester::combine_results(acc, &st);
                return r;
            }
            i = i + 1;
        }
    }
}

/// The sum of entries that lie in `[0, 1]` lies within the count of
/// entries, in full scores.
proof fn lemma_sum_in_unit_range(es: Seq<TestResultSpec>)
    requires
        forall|i: int| 0 <= i < es.len() ==> 0 <= (#[trigger] es[i]).success <= SCORE_ONE as int,
    ensures
        0 <= crate::settings::composite_sum(es) <= (es.len() as int) * (SCORE_ONE as int),
    decreases es.len(),
{
    if es.len() > 0 {
        assert(forall|i: int| 0 <= i < es.len() - 1 ==> es.drop_last()[i] == es[i]);
        lemma_sum_in_unit_range(es.drop_last());
        assert(es.last() == es[es.len() - 1]);
        assert((es.len() as int) * (SCORE_ONE as int)
            == (es.len() - 1) * (SCORE_ONE as int) + SCORE_ONE) by (nonlinear_arith);
    }
}

/// For structured output read from the first dialect, a composite's
/// aggregate score is the mean of its entries' scores — exactly their sum
/// divided by their count, with the fraction below one micro cut off —
/// and both the entries' scores and the aggregate lie in `[0, 1]`.
pub proof fn lemma_json_composite_mean(v: JsonSpec)
    requires
        spec_format_json(v) matches ResultOutputSpec::Composite(es),
    ensures
        ({
            let es = spec_format_json(v)->Composite_0;
            let sc = spec_format_json(v).to_score();
            let n = es.len() as int;
            &&& n > 0
            &&& forall|i: int| 0 <= i < n ==> 0 <= (#[trigger] es[i]).success <= SCORE_ONE as int
            &&& n * sc <= crate::settings::composite_sum(es) < n * (sc + 1)
            &&& 0 <= sc <= SCORE_ONE as int
        }),
{
    let es = spec_format_json(v)->Composite_0;
    let sc = spec_format_json(v).to_score();
    let n = es.len() as int;
    lemma_valid_entries_range(json_tests(v));
    lemma_sum_in_unit_range(es);
    let s = crate::settings::composite_sum(es);
    assert(sc == s / n);
    assert(n * (s / n) <= s < n * (s / n + 1)) by (nonlinear_arith)
        requires s >= 0 && n >= 1;
    assert(0 <= s / n <= SCORE_ONE as int) by (nonlinear_arith)
        requires 0 <= s <= n * (SCORE_ONE as int) && n >= 1;
}

/// Merging attempts under the best or the worst strategy, or under their
/// combining forms when no attempt carries composite entries, scores the
/// same whatever order the attempts came in: only the reported payload
/// depends on order, through the first-occurrence tie break.
pub proof fn lemma_combine_order_insensitive(
    rs1: Seq<(int, ResultOutputSpec)>,
    rs2: Seq<(int, ResultOutputSpec)>,
    st: RetryStrategy,
)
    requires
        rs1.len() > 0,
        rs1.to_multiset() == rs2.to_multiset(),
        st == RetryStrategy::Best || st == RetryStrategy::Worst
            || ((st == RetryStrategy::CombinedBest || st == RetryStrategy::CombinedWorst)
                && no_composite(rs1)),
    ensures
        spec_combine(rs1, st).0 == spec_combine(rs2, st).0,
{
    vstd::seq_lib::to_multiset_len(rs1);
    vstd::seq_lib::to_multiset_len(rs2);
    assert(rs1.to_multiset().len() == rs2.to_multiset().len());
    assert(rs2.len() == rs1.len());
    if st == RetryStrategy::CombinedBest || st == RetryStrategy::CombinedWorst {
        assert(no_composite(rs2)) by {
            assert forall|i: int| 0 <= i < rs2.len()
                implies match (#[trigger] rs2[i]).1 {
                    ResultOutputSpec::Composite(es) => es.len() == 0,
                    _ => true,
                } by {
                assert(rs2.contains(rs2[i]));
                vstd::seq_lib::to_multiset_contains(rs2, rs2[i]);
                vstd::seq_lib::to_multiset_contains(rs1, rs2[i]);
                assert(rs1.contains(rs2[i]));
                let j = choose|j: int| 0 <= j < rs1.len() && rs1[j] == rs2[i];
                assert(match rs1[j].1 {
                    ResultOutputSpec::Composite(es) => es.len() == 0,
                    _ => true,
                });
            }
        }
    }
    let high = st == RetryStrategy::Best || st == RetryStrategy::CombinedBest;
    lemma_best_idx_bounds(rs1, high);
    lemma_best_idx_bounds(rs2, high);
    let b1 = if high { best_idx(rs1) } else { worst_idx(rs1) };
    let b2 = if high { best_idx(rs2) } else { worst_idx(rs2) };
    assert(rs1.contains(rs1[b1]));
    vstd::seq_lib::to_multiset_contains(rs1, rs1[b1]);
    vstd::seq_lib::to_multiset_contains(rs2, rs1[b1]);
    assert(rs2.contains(rs1[b1]));
    let j1 = choose|j: int| 0 <= j < rs2.len() && rs2[j] == rs1[b1];
    assert(rs2.contains(rs2[b2]));
    vstd::seq_lib::to_multiset_contains(rs2, rs2[b2]);
    vstd::seq_lib::to_multiset_contains(rs1, rs2[b2]);
    assert(rs1.contains(rs2[b2]));
    let j2 = choose|j: int| 0 <= j < rs1.len() && rs1[j] == rs2[b2];
    if high {
        assert(rs1[b1].0 <= rs2[b2].0);
        assert(rs2[b2].0 <= rs1[b1].0);
    } else {
        assert(rs2[b2].0 <= rs1[b1].0);
        assert(rs1[b1].0 <= rs2[b2].0);
    }
}


/// A copy of a check output.
pub fn clone_output_pub(o: &ResultOutput) -> (r: ResultOutput)
    ensures r@ == o@,
{
    match o {
        ResultOutput::Text(t) => ResultOutput::Text(copy_bytes(t.as_slice())),
        ResultOutput::Boolean(b) => ResultOutput::Boolean(*b),
        ResultOutput::Integer(i) => ResultOutput::Integer(*i),
        ResultOutput::Real(s) => ResultOutput::Real(*s),
        ResultOutput::Empty => ResultOutput::Empty,
        ResultOutput::Composite(es) => {
            let ghost evs = entries_view(es@);
            let n = es.len();
            let mut out: Vec<TestResult> = Vec::new();
            let mut i: usize = 0;
            proof {
                assert(entries_view(out@) =~= evs.take(0));
            }
            while i < n
                invariant
                    0 <= i <= n,
                    n == es@.len(),
                    evs == entries_view(es@),
                    evs.len() == n,
                    entries_view(out@) == evs.take(i as int),
                decreases n - i,
            {
                proof {
                    assert(evs[i as int] == es@[i as int]@);
                }
                let ghost before = entries_view(out@);
                out.push(clone_entry_pub(&es[i]));
                proof {
                    assert(entries_view(out@) =~= before.push(evs[i as int]));
                    assert(evs.take(i as int).push(evs[i as int]) =~= evs.take(i as int + 1));
                }
                i = i + 1;
            }
            proof {
                assert(evs.take(n as int) =~= evs);
            }
            ResultOutput::Composite(out)
        },
    }
}

} // verus!





