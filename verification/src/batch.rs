//! Batches: which runs are admitted, and how their endpoints are opened.

use reqwest::header::HeaderValue;
use serde_json::Value;
use vstd::prelude::*;
use vstd::utf8::encode_utf8;

use crate::board::Board;
use crate::extract_map::ExtractMap;
use crate::json::json_object;
use crate::models::{ApiEndpoint, StepOption};
use crate::net::{is_header_value, parse_header_value, value_bytes};
use crate::template::{fill_if, filled_if, Rendering};
use crate::text::{ascii_only, ascii_raised, debug_text, joined, quoted, uppercased};

verus! {

/// Why a run is not admitted.
pub enum Refusal {
    /// The steps do not reach the number of workers in time.
    TooFewSteps,
    /// The names of the endpoints are not in order: what is wrong with them.
    Names(String),
    /// The steps follow one another without time between them.
    ZeroInterval,
    /// The steps or the weights are beyond what can be reckoned with.
    Overflow,
}

/// How many workers steps add up to: each step adds one increment more than the one before.
pub open spec fn step_total(test_duration_secs: u64, step: StepOption) -> int {
    let steps = test_duration_secs / step.increase_interval;
    step.increase_step * steps * (steps + 1) / 2
}

/// The sum that steps add up to can be reckoned in 64 bits.
pub open spec fn step_total_fits(test_duration_secs: u64, step: StepOption) -> bool {
    let steps = test_duration_secs / step.increase_interval;
    &&& step.increase_interval != 0
    &&& step.increase_step * steps <= u64::MAX
    &&& steps < u64::MAX
    &&& step.increase_step * steps * (steps + 1) <= u64::MAX
}

/// How many workers steps add up to; `None` where that cannot be reckoned in 64 bits.
pub fn total_concurrency_increase(test_duration_secs: u64, step: &StepOption) -> (r: Option<u64>)
    ensures
        r is Some <==> step_total_fits(test_duration_secs, *step),
        r matches Some(n) ==> n == step_total(test_duration_secs, *step),
{
    if step.increase_interval == 0 {
        return None;
    }
    let steps: u64 = test_duration_secs / step.increase_interval;
    if steps == u64::MAX {
        return None;
    }
    let first = match (step.increase_step as u64).checked_mul(steps) {
        None => return None,
        Some(n) => n,
    };
    match first.checked_mul(steps + 1) {
        None => None,
        Some(n) => Some(n / 2),
    }
}

/// The sum of the weights of endpoints.
pub open spec fn weight_sum(endpoints: Seq<ApiEndpoint>) -> int
    decreases endpoints.len(),
{
    if endpoints.len() == 0 {
        0
    } else {
        weight_sum(endpoints.drop_last()) + endpoints.last().weight
    }
}

proof fn lemma_weight_grows(endpoints: Seq<ApiEndpoint>, n: int)
    requires
        0 <= n <= endpoints.len(),
    ensures
        0 <= weight_sum(endpoints.take(n)) <= weight_sum(endpoints),
    decreases endpoints.len(),
{
    if n == endpoints.len() {
        assert(endpoints.take(n) == endpoints);
        if n > 0 {
            lemma_weight_grows(endpoints.drop_last(), n - 1);
        }
    } else {
        assert(endpoints.drop_last().take(n) == endpoints.take(n));
        lemma_weight_grows(endpoints.drop_last(), n);
    }
}

/// The sum of the weights of endpoints; `None` where it does not fit.
pub fn total_weight(endpoints: &Vec<ApiEndpoint>) -> (r: Option<u32>)
    ensures
        r is Some <==> weight_sum(endpoints@) <= u32::MAX,
        r matches Some(n) ==> n == weight_sum(endpoints@),
{
    let ghost all = endpoints@;
    let mut sum: u32 = 0;
    let mut i: usize = 0;
    assert(all.take(0).len() == 0);
    while i < endpoints.len()
        invariant
            0 <= i <= endpoints.len(),
            all == endpoints@,
            sum == weight_sum(all.take(i as int)),
        decreases endpoints.len() - i,
    {
        proof {
            assert(all.take(i + 1).drop_last() == all.take(i as int));
            assert(all.take(i + 1).last() == all[i as int]);
            lemma_weight_grows(all, i + 1);
        }
        sum = match sum.checked_add(endpoints[i].weight) {
            None => return None,
            Some(n) => n,
        };
        i = i + 1;
    }
    assert(all.take(i as int) == all);
    Some(sum)
}

/// Checks steps: they reach the number of workers in time.
pub fn check_steps(
    test_duration_secs: u64,
    concurrent_requests: usize,
    step_option: &Option<StepOption>,
) -> (r: Result<(), Refusal>)
    ensures
        match step_option {
            None => r is Ok,
            Some(s) => match r {
                Err(Refusal::ZeroInterval) => s.increase_interval == 0,
                Err(Refusal::Overflow) => s.increase_interval != 0 && !step_total_fits(
                    test_duration_secs,
                    *s,
                ),
                Err(Refusal::TooFewSteps) => step_total_fits(test_duration_secs, *s) && step_total(
                    test_duration_secs,
                    *s,
                ) < concurrent_requests,
                Err(Refusal::Names(_)) => false,
                Ok(_) => step_total_fits(test_duration_secs, *s) && step_total(
                    test_duration_secs,
                    *s,
                ) >= concurrent_requests,
            },
        },
{
    match step_option {
        None => Ok(()),
        Some(step) => {
            if step.increase_interval == 0 {
                return Err(Refusal::ZeroInterval);
            }
            match total_concurrency_increase(test_duration_secs, step) {
                None => Err(Refusal::Overflow),
                Some(increase) => if increase < concurrent_requests as u64 {
                    Err(Refusal::TooFewSteps)
                } else {
                    Ok(())
                },
            }
        },
    }
}

/// Admits a run: its steps reach the number of workers in time, the names of its endpoints are in
/// order, and its weights add up. The answer is the sum of the weights.
pub fn check_run(
    test_duration_secs: u64,
    concurrent_requests: usize,
    step_option: &Option<StepOption>,
    names: Result<(), String>,
    endpoints: &Vec<ApiEndpoint>,
) -> (r: Result<u32, Refusal>)
    ensures
        ({
            let zero = step_option matches Some(s) && s.increase_interval == 0;
            let overflow = step_option matches Some(s) && s.increase_interval != 0
                && !step_total_fits(test_duration_secs, *s);
            let too_few = step_option matches Some(s) && step_total_fits(test_duration_secs, *s)
                && step_total(test_duration_secs, *s) < concurrent_requests;
            let steps_pass = !zero && !overflow && !too_few;
            match r {
                Err(Refusal::ZeroInterval) => zero,
                Err(Refusal::Overflow) => overflow || (steps_pass && names is Ok && weight_sum(
                    endpoints@,
                ) > u32::MAX),
                Err(Refusal::TooFewSteps) => too_few,
                Err(Refusal::Names(e)) => steps_pass && (names matches Err(f) && e == f),
                Ok(total) => steps_pass && names is Ok && total == weight_sum(endpoints@),
            }
        }),
{
    match check_steps(test_duration_secs, concurrent_requests, step_option) {
        Err(refusal) => return Err(refusal),
        Ok(_) => {},
    }
    match names {
        Err(e) => return Err(Refusal::Names(e)),
        Ok(_) => {},
    }
    match total_weight(endpoints) {
        None => Err(Refusal::Overflow),
        Some(total) => Ok(total),
    }
}

impl Refusal {
    /// What the refusal reads as.
    pub fn message(&self) -> (r: String)
        ensures
            r@ == (match self {
                Refusal::TooFewSteps => "阶梯加压总并发数在设置的时间内无法增加到预设的结束并发数"@,
                Refusal::Names(e) => e@,
                Refusal::ZeroInterval => "attempt to divide by zero"@,
                Refusal::Overflow => "attempt to add with overflow"@,
            }),
    {
        match self {
            Refusal::TooFewSteps => "阶梯加压总并发数在设置的时间内无法增加到预设的结束并发数".to_owned(),
            Refusal::Names(e) => e.clone(),
            Refusal::ZeroInterval => "attempt to divide by zero".to_owned(),
            Refusal::Overflow => "attempt to add with overflow".to_owned(),
        }
    }

    /// Tells whether the run breaks off rather than being refused.
    pub fn is_fatal(&self) -> (r: bool)
        ensures
            r == (self is ZeroInterval || self is Overflow),
    {
        match self {
            Refusal::ZeroInterval => true,
            Refusal::Overflow => true,
            Refusal::TooFewSteps => false,
            Refusal::Names(_) => false,
        }
    }
}

/// What is said of a run whose global setup failed.
pub fn setup_refused(message: &str) -> (r: String)
    ensures
        r@ == "全局初始化失败: "@ + message@,
{
    joined("全局初始化失败: ", message)
}

/// How many responses may wait to be judged: as many as asked for, and 1024 where none are.
pub fn judging_capacity(asked: usize) -> (r: usize)
    ensures
        r == (if asked == 0 {
            1024
        } else {
            asked
        }),
        r > 0,
{
    if asked == 0 {
        1024
    } else {
        asked
    }
}

/// Tells whether assertions are made on the responses of any endpoint.
pub fn wants_judging(endpoints: &Vec<ApiEndpoint>) -> (r: bool)
    ensures
        r == exists|i: int|
            0 <= i < endpoints.len() && (#[trigger] endpoints@[i]).assert_options is Some,
{
    let mut i: usize = 0;
    while i < endpoints.len()
        invariant
            0 <= i <= endpoints.len(),
            forall|j: int| 0 <= j < i ==> (#[trigger] endpoints@[j]).assert_options is None,
        decreases endpoints.len() - i,
    {
        match endpoints[i].assert_options {
            Some(_) => {
                assert(endpoints@[i as int].assert_options is Some);
                return true;
            },
            None => {},
        }
        i = i + 1;
    }
    false
}

/// What a client calls itself.
pub open spec fn agent_text(
    name: Seq<char>,
    version: Seq<char>,
    os: Seq<char>,
    os_version: Seq<char>,
) -> Seq<char> {
    name + " "@ + version + " ("@ + os + "; "@ + os_version + ")"@
}

/// The header by which a client calls itself by its name and version, and the system's.
pub fn user_agent(name: &str, version: &str, os: &str, os_version: &str) -> (r: Result<
    HeaderValue,
    String,
>)
    ensures
        r is Ok <==> is_header_value(agent_text(name@, version@, os@, os_version@)),
        r matches Ok(v) ==> value_bytes(v) == encode_utf8(
            agent_text(name@, version@, os@, os_version@),
        ),
        r matches Err(e) ==> e@ == "解析user agent失败::"@ + quoted("failed to parse header value"@),
{
    let named = joined(joined(name, " ").as_str(), version);
    let system = joined(joined(joined(named.as_str(), " (").as_str(), os).as_str(), "; ");
    let text = joined(joined(system.as_str(), os_version).as_str(), ")");
    match parse_header_value(text.as_str()) {
        Some(v) => Ok(v),
        None => Err(
            joined("解析user agent失败::", debug_text("failed to parse header value").as_str()),
        ),
    }
}

/// How many workers an endpoint has: its share, and one where its share rounds to none.
pub fn endpoint_concurrency(share: usize) -> (r: usize)
    ensures
        r == (if share == 0 {
            1
        } else {
            share
        }),
        r >= 1,
{
    if share == 0 {
        1
    } else {
        share
    }
}

/// A run that was admitted: its endpoints, and what was extracted for all of them.
pub struct Batch {
    endpoints: Vec<ApiEndpoint>,
    extracted: ExtractMap,
    render_template: bool,
}

/// What a run says.
pub struct BatchState {
    pub endpoints: Seq<ApiEndpoint>,
    pub extracted: Map<Seq<char>, Value>,
    /// Requests are filled in from what was extracted.
    pub render_template: bool,
}

impl View for Batch {
    type V = BatchState;

    closed spec fn view(&self) -> BatchState {
        BatchState {
            endpoints: self.endpoints@,
            extracted: self.extracted@,
            render_template: self.render_template,
        }
    }
}

impl Batch {
    /// A run before its setup.
    pub fn new(endpoints: Vec<ApiEndpoint>) -> (r: Self)
        ensures
            r@ == (BatchState {
                endpoints: endpoints@,
                extracted: Map::<Seq<char>, Value>::empty(),
                render_template: false,
            }),
    {
        Batch { endpoints, extracted: ExtractMap::new(), render_template: false }
    }

    /// The setup is done: requests are filled in from now on, from what it extracted.
    pub fn setup_done(&mut self, result: &Option<ExtractMap>)
        ensures
            final(self)@ == (BatchState {
                endpoints: old(self)@.endpoints,
                extracted: match result {
                    None => old(self)@.extracted,
                    Some(m) => old(self)@.extracted.union_prefer_right(m@),
                },
                render_template: true,
            }),
    {
        self.render_template = true;
        match result {
            None => {},
            Some(m) => self.extracted.extend(m),
        }
    }

    /// How many endpoints there are.
    pub fn len(&self) -> (r: usize)
        ensures
            r == self@.endpoints.len(),
    {
        self.endpoints.len()
    }

    /// An endpoint.
    pub fn endpoint(&self, index: usize) -> (r: &ApiEndpoint)
        requires
            index < self@.endpoints.len(),
        ensures
            *r == self@.endpoints[index as int],
    {
        &self.endpoints[index]
    }

    /// What was extracted for all endpoints.
    pub fn extracted(&self) -> (r: &ExtractMap)
        ensures
            r@ == self@.extracted,
    {
        &self.extracted
    }

    /// Tells whether requests are filled in.
    pub fn render_template(&self) -> (r: bool)
        ensures
            r == self@.render_template,
    {
        self.render_template
    }

    /// Opens the next endpoint, the first that is not on the board: its URL is filled in, it
    /// joins the board, and the answer is how many workers it has. Where the URL's rendering has
    /// to be supplied first, the answer is the URL, and nothing changes.
    pub fn open(
        &mut self,
        board: &mut Board,
        share: usize,
        supplied: &Vec<Rendering>,
    ) -> (r: Result<usize, String>)
        requires
            old(board).wf(),
            old(board)@.apis.len() < old(self)@.endpoints.len(),
        ensures
            ({
                let before = old(self)@;
                let after = final(self)@;
                let index = old(board)@.apis.len() as int;
                let endpoint = before.endpoints[index];
                let url = filled_if(
                    before.render_template,
                    endpoint.url@,
                    json_object(before.extracted),
                    supplied@,
                );
                &&& final(board).wf()
                &&& match r {
                    Err(t) => url is None && t@ == endpoint.url@ && after == before && final(board)@
                        == old(board)@,
                    Ok(n) => url is Some && n == (if share == 0 {
                        1
                    } else {
                        share
                    }) && after.extracted == before.extracted && after.render_template
                        == before.render_template && after.endpoints == before.endpoints.update(
                        index,
                        ApiEndpoint { url: after.endpoints[index].url, ..endpoint },
                    ) && after.endpoints[index].url@ == url->Some_0 && final(board)@ == old(
                        board,
                    )@.joined(endpoint.name@, url->Some_0, endpoint.method@) && (ascii_only(
                        endpoint.method@,
                    ) ==> uppercased(endpoint.method@) == ascii_raised(endpoint.method@)),
                }
            }),
    {
        let index: usize = board.endpoints();
        let source = self.endpoints[index].url.clone();
        let data = self.extracted.to_object();
        let url = match fill_if(self.render_template, source.as_str(), &data, supplied) {
            None => return Err(source),
            Some(url) => url,
        };
        board.join(
            self.endpoints[index].name.as_str(),
            url.as_str(),
            self.endpoints[index].method.as_str(),
        );
        let ghost before = self.endpoints@;
        self.endpoints[index].url = url;
        assert(self.endpoints@ == before.update(
            index as int,
            ApiEndpoint { url, ..before[index as int] },
        ));
        Ok(endpoint_concurrency(share))
    }
}

/// Longer runs admit at least as many workers: what is admitted in some time is admitted in more.
pub proof fn law_more_time_admits_more(short: u64, long: u64, step: StepOption)
    requires
        step.increase_interval > 0,
        short <= long,
    ensures
        step_total(short, step) <= step_total(long, step),
{
    let a = (short / step.increase_interval) as int;
    let b = (long / step.increase_interval) as int;
    let n = step.increase_step as int;
    let d = step.increase_interval as int;
    assert(a <= b) by (nonlinear_arith)
        requires
            a == short as int / d,
            b == long as int / d,
            short <= long,
            d > 0,
    ;
    assert(0 <= a) by (nonlinear_arith)
        requires
            a == short as int / d,
            0 <= short,
            d > 0,
    ;
    assert(n * a * (a + 1) <= n * b * (b + 1)) by (nonlinear_arith)
        requires
            0 <= n,
            0 <= a <= b,
    ;
}

/// The sum of the numbers from 1 to `n`.
pub open spec fn sum_to(n: nat) -> int
    decreases n,
{
    if n == 0 {
        0
    } else {
        sum_to((n - 1) as nat) + n
    }
}

proof fn lemma_sum_to(n: nat)
    ensures
        2 * sum_to(n) == n * (n + 1),
    decreases n,
{
    if n == 0 {
        assert(n * (n + 1) == 0) by (nonlinear_arith)
            requires
                n == 0,
        ;
    } else {
        let m = (n - 1) as nat;
        lemma_sum_to(m);
        assert(m * (m + 1) + 2 * n == n * (n + 1)) by (nonlinear_arith)
            requires
                n == m + 1,
        ;
    }
}

/// The workers that steps add up to: the first step adds one increment, the second two, and so
/// on, for as many steps as there are whole intervals in the time.
pub proof fn law_steps_add_up(test_duration_secs: u64, step: StepOption, steps: nat)
    requires
        steps * step.increase_interval <= test_duration_secs < (steps + 1) * step.increase_interval,
    ensures
        step_total(test_duration_secs, step) == step.increase_step * sum_to(steps),
{
    let d = step.increase_interval as int;
    let t = test_duration_secs as int;
    let n = steps as int;
    assert(t / d == n) by (nonlinear_arith)
        requires
            n * d <= t < (n + 1) * d,
            d >= 0,
    ;
    lemma_sum_to(steps);
    let a = step.increase_step as int;
    let s = sum_to(steps);
    assert(a * n * (n + 1) == 2 * (a * s)) by (nonlinear_arith)
        requires
            2 * s == n * (n + 1),
    ;
}

/// The weights of no endpoints add up to 0, and each endpoint adds its own, wherever it stands.
pub proof fn law_weights_add_up(first: Seq<ApiEndpoint>, e: ApiEndpoint, rest: Seq<ApiEndpoint>)
    ensures
        weight_sum(Seq::empty()) == 0,
        weight_sum(first.push(e) + rest) == weight_sum(first) + e.weight + weight_sum(rest),
    decreases rest.len(),
{
    let all = first.push(e) + rest;
    if rest.len() == 0 {
        assert(all.drop_last() == first);
        assert(all.last() == e);
    } else {
        law_weights_add_up(first, e, rest.drop_last());
        assert(all.drop_last() == first.push(e) + rest.drop_last());
        assert(all.last() == rest.last());
    }
}

/// The sum of the steps can be reckoned in 64 bits exactly where none of the numbers on the way to
/// it is larger.
pub proof fn law_steps_fit(test_duration_secs: u64, step: StepOption, steps: nat)
    requires
        steps * step.increase_interval <= test_duration_secs < (steps + 1) * step.increase_interval,
    ensures
        step_total_fits(test_duration_secs, step) <==> step.increase_step * steps <= u64::MAX
            && steps < u64::MAX && step.increase_step * steps * (steps + 1) <= u64::MAX,
        !step_total_fits(test_duration_secs, StepOption { increase_interval: 0, ..step }),
{
    let d = step.increase_interval as int;
    let t = test_duration_secs as int;
    let n = steps as int;
    assert(t / d == n) by (nonlinear_arith)
        requires
            n * d <= t < (n + 1) * d,
            d >= 0,
    ;
    assert(d != 0) by (nonlinear_arith)
        requires
            n * d <= t < (n + 1) * d,
            t >= 0,
    ;
}

/// What a client calls itself tells its name first, then its version, then the system's name and
/// version in round brackets, each word for word.
pub proof fn law_agent_names_everything(
    name: Seq<char>,
    version: Seq<char>,
    os: Seq<char>,
    os_version: Seq<char>,
)
    ensures
        ({
            let agent = agent_text(name, version, os, os_version);
            let named = name.len() as int;
            let opened = named + 1 + version.len();
            let parted = opened + 2 + os.len();
            let closed = parted + 2 + os_version.len();
            &&& agent.len() == closed + 1
            &&& agent.take(named) == name
            &&& agent[named] == ' '
            &&& agent.subrange(named + 1, opened) == version
            &&& agent[opened] == ' ' && agent[opened + 1] == '('
            &&& agent.subrange(opened + 2, parted) == os
            &&& agent[parted] == ';' && agent[parted + 1] == ' '
            &&& agent.subrange(parted + 2, closed) == os_version
            &&& agent[closed] == ')'
        }),
{
    reveal_strlit(" ");
    reveal_strlit(" (");
    reveal_strlit("; ");
    reveal_strlit(")");
}

} // verus!
