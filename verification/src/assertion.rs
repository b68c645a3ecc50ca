//! Assertions: how the body of a response is judged, and what is counted of the judgement.

use serde_json::Value;
use vstd::prelude::*;

use crate::board::{law_marks_add_up, Board, BoardView};
use crate::error_stats::{
    count_of, counted_more, law_sum_grows_by_all, room_for, sum_of, AssertErrKeyView,
};
use crate::json::{
    json_debug, json_equal, json_error_debug, json_from_bytes, parse_bytes, parse_error_debug,
    value_debug, value_eq,
};
use crate::jsonpath::{
    law_selection_is_the_evaluation, misses, select, selection, selects, Selection,
};
use crate::models::{assertions_view, AssertOption};
use crate::tally::{
    law_fitting_is_not_wrapped, law_wrapping_goes_on, marked, wrapped, Mark, TallyView,
};
use crate::text::joined;

verus! {

/// A response that waits to be judged.
#[derive(Debug)]
pub struct AssertTask {
    pub assert_options: Vec<AssertOption>,
    pub body_bytes: Vec<u8>,
    pub verbose: bool,
    /// The name, the URL and the place on the board of the endpoint that it came from.
    pub api_name: String,
    pub url: String,
    pub index: usize,
}

/// A judgement.
pub enum Verdict {
    /// Every assertion holds.
    Passed,
    /// The body is no JSON: the debug form of the parser's error.
    Unreadable(String),
    /// A path selects nothing.
    NoMatch,
    /// A path selects more than one value.
    ManyMatches,
    /// A value is not the expected one: the debug forms of what was expected and what was there.
    Different(String, String),
    /// A path cannot be evaluated: the debug form of its error.
    BadPath(String),
    /// The evaluation of this path has to be supplied.
    Unselected(String),
}

/// What a judgement says.
pub enum VerdictView {
    Passed,
    Unreadable(Seq<char>),
    NoMatch,
    ManyMatches,
    Different(Seq<char>, Seq<char>),
    BadPath(Seq<char>),
    Unselected(Seq<char>),
}

impl View for Verdict {
    type V = VerdictView;

    open spec fn view(&self) -> VerdictView {
        match self {
            Verdict::Passed => VerdictView::Passed,
            Verdict::Unreadable(t) => VerdictView::Unreadable(t@),
            Verdict::NoMatch => VerdictView::NoMatch,
            Verdict::ManyMatches => VerdictView::ManyMatches,
            Verdict::Different(e, a) => VerdictView::Different(e@, a@),
            Verdict::BadPath(t) => VerdictView::BadPath(t@),
            Verdict::Unselected(p) => VerdictView::Unselected(p@),
        }
    }
}

/// How one assertion on a document comes out.
pub open spec fn judged_one(
    doc: Value,
    path: Seq<char>,
    reference: Value,
    supplied: Seq<Selection>,
) -> VerdictView {
    match selection(doc, path, supplied) {
        None => VerdictView::Unselected(path),
        Some(Err(text)) => VerdictView::BadPath(text),
        Some(Ok(values)) => if values.len() == 0 {
            VerdictView::NoMatch
        } else if values.len() > 1 {
            VerdictView::ManyMatches
        } else if json_equal(values[0], reference) {
            VerdictView::Passed
        } else {
            VerdictView::Different(json_debug(reference), json_debug(values[0]))
        },
    }
}

/// How assertions on a document come out: the first that does not hold decides.
pub open spec fn judged_all(
    doc: Value,
    options: Seq<(Seq<char>, Value)>,
    supplied: Seq<Selection>,
) -> VerdictView
    decreases options.len(),
{
    if options.len() == 0 {
        VerdictView::Passed
    } else {
        let before = judged_all(doc, options.drop_last(), supplied);
        if before is Passed {
            judged_one(doc, options.last().0, options.last().1, supplied)
        } else {
            before
        }
    }
}

/// How assertions on a body come out.
pub open spec fn judged(
    body: Seq<u8>,
    options: Seq<(Seq<char>, Value)>,
    supplied: Seq<Selection>,
) -> VerdictView {
    match json_from_bytes(body) {
        Err(e) => VerdictView::Unreadable(json_error_debug(e)),
        Ok(doc) => if body.len() == 0 {
            VerdictView::Passed
        } else {
            judged_all(doc, options, supplied)
        },
    }
}

/// Every path selects just the reference of its assertion.
pub open spec fn all_selected(
    doc: Value,
    options: Seq<(Seq<char>, Value)>,
    supplied: Seq<Selection>,
) -> bool {
    forall|i: int|
        0 <= i < options.len() ==> selection(doc, (#[trigger] options[i]).0, supplied) == Some(
            Ok::<Seq<Value>, Seq<char>>(seq![options[i].1]),
        )
}

/// What is recorded of a judgement.
pub open spec fn complaint(v: VerdictView) -> Option<Seq<char>> {
    match v {
        VerdictView::Unreadable(e) => Some("JSONPath查询失败:"@ + e),
        VerdictView::NoMatch => Some("没有匹配到任何结果"@),
        VerdictView::ManyMatches => Some("匹配到多个值，无法断言"@),
        VerdictView::Different(expected, actual) => Some(
            "预期结果："@ + expected + ", 实际结果："@ + actual,
        ),
        VerdictView::Passed => None,
        VerdictView::BadPath(_) => None,
        VerdictView::Unselected(_) => None,
    }
}

impl Verdict {
    /// What is recorded of the judgement; `None` where nothing is.
    pub fn complaint(&self) -> (r: Option<String>)
        ensures
            match r {
                None => complaint(self@) is None,
                Some(text) => complaint(self@) == Some(text@),
            },
    {
        match self {
            Verdict::Unreadable(e) => Some(joined("JSONPath查询失败:", e.as_str())),
            Verdict::NoMatch => Some("没有匹配到任何结果".to_owned()),
            Verdict::ManyMatches => Some("匹配到多个值，无法断言".to_owned()),
            Verdict::Different(expected, actual) => {
                let head = joined("预期结果：", expected.as_str());
                let label = joined(head.as_str(), ", 实际结果：");
                Some(joined(label.as_str(), actual.as_str()))
            },
            Verdict::Passed => None,
            Verdict::BadPath(_) => None,
            Verdict::Unselected(_) => None,
        }
    }
}

/// The board after a judgement: a pass is a success, what is recorded is an error, and a path
/// that cannot be evaluated is neither.
pub open spec fn settled(
    b: BoardView,
    index: int,
    name: Seq<char>,
    url: Seq<char>,
    v: VerdictView,
) -> BoardView {
    match complaint(v) {
        Some(msg) => b.marked(index, Mark::Failed).with_assert_error(
            AssertErrKeyView { name, msg, url },
        ),
        None => if v is Passed {
            b.marked(index, Mark::Succeeded)
        } else {
            b
        },
    }
}

proof fn lemma_judged_stuck(
    doc: Value,
    options: Seq<(Seq<char>, Value)>,
    n: int,
    supplied: Seq<Selection>,
)
    requires
        0 <= n <= options.len(),
        judged_all(doc, options.take(n), supplied) !is Passed,
    ensures
        judged_all(doc, options, supplied) == judged_all(doc, options.take(n), supplied),
    decreases options.len(),
{
    if n == options.len() {
        assert(options.take(n) == options);
    } else {
        assert(options.drop_last().take(n) == options.take(n));
        lemma_judged_stuck(doc, options.drop_last(), n, supplied);
    }
}

/// Judges one assertion on a document.
fn judge_one(doc: &Value, option: &AssertOption, supplied: &Vec<Selection>) -> (r: Verdict)
    ensures
        r@ == judged_one(*doc, option.jsonpath@, option.reference_object, supplied@),
        selection(*doc, option.jsonpath@, supplied@) == Some(
            Ok::<Seq<Value>, Seq<char>>(seq![option.reference_object]),
        ) ==> r is Passed,
{
    match select(doc, option.jsonpath.as_str(), supplied) {
        None => Verdict::Unselected(option.jsonpath.clone()),
        Some(Err(text)) => Verdict::BadPath(text),
        Some(Ok(values)) => {
            if values.len() == 0 {
                Verdict::NoMatch
            } else if values.len() > 1 {
                Verdict::ManyMatches
            } else if value_eq(&values[0], &option.reference_object) {
                Verdict::Passed
            } else {
                Verdict::Different(value_debug(&option.reference_object), value_debug(&values[0]))
            }
        },
    }
}

/// Judges the body of a response. A body in which every path selects just the reference passes.
pub fn judge(body: &Vec<u8>, options: &Vec<AssertOption>, supplied: &Vec<Selection>) -> (r: Verdict)
    ensures
        r@ == judged(body@, assertions_view(options@), supplied@),
        json_from_bytes(body@) matches Ok(doc) ==> all_selected(
            doc,
            assertions_view(options@),
            supplied@,
        ) ==> r is Passed,
        json_from_bytes(body@) matches Ok(doc) ==> body@.len() > 0 ==> (r is Passed <==> forall|
            i: int,
        |
            0 <= i < options@.len() ==> is_met(doc, #[trigger] options@[i], supplied@)),
{
    proof {
        law_every_assertion_is_looked_at(body@, options@, supplied@);
    }
    let doc = match parse_bytes(body) {
        Ok(doc) => doc,
        Err(e) => return Verdict::Unreadable(parse_error_debug(&e)),
    };
    if body.len() == 0 {
        return Verdict::Passed;
    }
    let ghost all = assertions_view(options@);
    let mut i: usize = 0;
    assert(all.take(0).len() == 0);
    while i < options.len()
        invariant
            0 <= i <= options.len(),
            all == assertions_view(options@),
            judged_all(doc, all.take(i as int), supplied@) is Passed,
            json_from_bytes(body@) == Ok::<Value, serde_json::Error>(doc),
            body.len() > 0,
        decreases options.len() - i,
    {
        proof {
            assert(all.take(i + 1).drop_last() == all.take(i as int));
            assert(all.take(i + 1).last() == all[i as int]);
        }
        match judge_one(&doc, &options[i], supplied) {
            Verdict::Passed => {},
            verdict => {
                proof {
                    assert(all[i as int].0 == options@[i as int].jsonpath@);
                    lemma_judged_stuck(doc, all, i + 1, supplied@);
                    law_every_assertion_is_looked_at(body@, options@, supplied@);
                }
                return verdict;
            },
        }
        i = i + 1;
    }
    assert(all.take(i as int) == all);
    Verdict::Passed
}

/// Judges a waiting response and counts the judgement. Where a path has to be evaluated by the
/// caller first, nothing is counted.
pub fn listening_assert(board: &mut Board, task: &AssertTask, supplied: &Vec<Selection>) -> (r:
    Verdict)
    requires
        old(board).wf(),
        task.index < old(board)@.apis.len(),
    ensures
        final(board).wf(),
        r@ == judged(task.body_bytes@, assertions_view(task.assert_options@), supplied@),
        final(board)@ == settled(
            old(board)@,
            task.index as int,
            task.api_name@,
            task.url@,
            r@,
        ),
{
    let verdict = judge(&task.body_bytes, &task.assert_options, supplied);
    match verdict.complaint() {
        Some(msg) => {
            let _ = board.mark(task.index, Mark::Failed);
            board.assert_error(task.api_name.clone(), msg, task.url.clone());
        },
        None => {
            if let Verdict::Passed = verdict {
                let _ = board.mark(task.index, Mark::Succeeded);
            }
        },
    }
    verdict
}

/// A response passes exactly if it is JSON and every path selects one value that equals the
/// reference.
pub proof fn law_pass_means_all_equal(
    doc: Value,
    options: Seq<(Seq<char>, Value)>,
    supplied: Seq<Selection>,
)
    ensures
        judged_all(doc, options, supplied) is Passed <==> forall|i: int|
            0 <= i < options.len() ==> judged_one(
                doc,
                (#[trigger] options[i]).0,
                options[i].1,
                supplied,
            ) is Passed,
    decreases options.len(),
{
    if options.len() > 0 {
        let fewer = options.drop_last();
        law_pass_means_all_equal(doc, fewer, supplied);
        if judged_all(doc, options, supplied) is Passed {
            assert forall|i: int| 0 <= i < options.len() implies judged_one(
                doc,
                (#[trigger] options[i]).0,
                options[i].1,
                supplied,
            ) is Passed by {
                if i < fewer.len() {
                    assert(fewer[i] == options[i]);
                }
            }
        } else if forall|i: int|
            0 <= i < options.len() ==> judged_one(
                doc,
                (#[trigger] options[i]).0,
                options[i].1,
                supplied,
            ) is Passed {
            assert forall|i: int| 0 <= i < fewer.len() implies judged_one(
                doc,
                (#[trigger] fewer[i]).0,
                fewer[i].1,
                supplied,
            ) is Passed by {
                assert(fewer[i] == options[i]);
            }
            assert(options[options.len() - 1] == options.last());
        }
    }
}

/// The first assertion that does not hold decides: what follows it is not looked at.
pub proof fn law_first_failure_decides(
    doc: Value,
    options: Seq<(Seq<char>, Value)>,
    n: int,
    supplied: Seq<Selection>,
)
    requires
        0 <= n < options.len(),
        judged_all(doc, options.take(n), supplied) is Passed,
        judged_one(doc, options[n].0, options[n].1, supplied) !is Passed,
    ensures
        judged_all(doc, options, supplied) == judged_one(
            doc,
            options[n].0,
            options[n].1,
            supplied,
        ),
{
    assert(options.take(n + 1).drop_last() == options.take(n));
    assert(options.take(n + 1).last() == options[n]);
    lemma_judged_stuck(doc, options, n + 1, supplied);
}

/// A judgement counts at most once: as one success, as one error, or not at all. It counts as a
/// success exactly where everything passed, and requests, sizes and times stay as they are.
pub proof fn law_judgement_counts_at_most_once(
    b: BoardView,
    index: int,
    name: Seq<char>,
    url: Seq<char>,
    v: VerdictView,
)
    requires
        b.wf(),
        0 <= index < b.apis.len(),
    ensures
        ({
            let before = b.apis[index];
            let after = settled(b, index, name, url, v).apis[index];
            &&& after.successful_requests == (if v is Passed {
                before.successful_requests.wrapping_add(1)
            } else {
                before.successful_requests
            })
            &&& after.err_count == (if complaint(v) is Some {
                before.err_count.wrapping_add(1)
            } else {
                before.err_count
            })
            &&& !(v is Passed && complaint(v) is Some)
            &&& after.total_requests == before.total_requests
            &&& after.response_bytes == before.response_bytes
            &&& after.max_response_time == before.max_response_time
            &&& after.min_response_time == before.min_response_time
            &&& after.counters == before.counters
            &&& settled(b, index, name, url, v).wf()
        }),
{
    law_marks_add_up(b, index, Mark::Failed);
    law_marks_add_up(b, index, Mark::Succeeded);
}

/// A judgement of a response: the endpoint that it came from, the name and the URL that it is
/// recorded under, and how it came out.
pub struct Judgement {
    pub index: usize,
    pub name: Seq<char>,
    pub url: Seq<char>,
    pub verdict: VerdictView,
}

/// The board after judgements, in turn.
pub open spec fn settled_all(b: BoardView, judgements: Seq<Judgement>) -> BoardView
    decreases judgements.len(),
{
    if judgements.len() == 0 {
        b
    } else {
        let j = judgements.last();
        settled(
            settled_all(b, judgements.drop_last()),
            j.index as int,
            j.name,
            j.url,
            j.verdict,
        )
    }
}

/// The judgements of responses of one endpoint.
pub open spec fn judgements_at(judgements: Seq<Judgement>, index: int) -> Seq<Judgement>
    decreases judgements.len(),
{
    if judgements.len() == 0 {
        judgements
    } else if judgements.last().index == index {
        judgements_at(judgements.drop_last(), index).push(judgements.last())
    } else {
        judgements_at(judgements.drop_last(), index)
    }
}

/// How many judgements are passes.
pub open spec fn passes(judgements: Seq<Judgement>) -> nat
    decreases judgements.len(),
{
    if judgements.len() == 0 {
        0
    } else {
        passes(judgements.drop_last()) + (if judgements.last().verdict is Passed {
            1nat
        } else {
            0
        })
    }
}

/// What judgements are recorded under, as errors.
pub open spec fn complaints(judgements: Seq<Judgement>) -> Seq<AssertErrKeyView>
    decreases judgements.len(),
{
    if judgements.len() == 0 {
        Seq::empty()
    } else {
        let j = judgements.last();
        match complaint(j.verdict) {
            None => complaints(judgements.drop_last()),
            Some(msg) => complaints(judgements.drop_last()).push(
                AssertErrKeyView { name: j.name, msg, url: j.url },
            ),
        }
    }
}

/// A tally grew by these successes and errors, and by nothing else but wrapping around.
pub open spec fn grew(before: TallyView, after: TallyView, passed: nat, failed: nat) -> bool {
    &&& after.successful_requests == wrapped(before.successful_requests + passed)
    &&& after.err_count == wrapped(before.err_count + failed)
    &&& after == (TallyView {
        successful_requests: after.successful_requests,
        err_count: after.err_count,
        ..before
    })
}

proof fn lemma_grew_not(t: TallyView)
    ensures
        grew(t, t, 0, 0),
{
    law_fitting_is_not_wrapped(t.successful_requests as int);
    law_fitting_is_not_wrapped(t.err_count as int);
}

proof fn lemma_grew_once(t: TallyView, u: TallyView, passed: nat, failed: nat)
    requires
        grew(t, u, passed, failed),
    ensures
        grew(t, marked(u, Mark::Succeeded), passed + 1, failed),
        grew(t, marked(u, Mark::Failed), passed, failed + 1),
{
    law_wrapping_goes_on(t.successful_requests + passed, u.successful_requests, 1);
    law_wrapping_goes_on(t.err_count + failed, u.err_count, 1);
}

proof fn lemma_judged_apart(judgements: Seq<Judgement>)
    ensures
        passes(judgements) + complaints(judgements).len() <= judgements.len(),
    decreases judgements.len(),
{
    if judgements.len() > 0 {
        lemma_judged_apart(judgements.drop_last());
    }
}

/// However many responses are judged, of whichever endpoints, each counts at most once: passes
/// and complaints together are no more than the judgements. The run's successes and errors grow
/// by these, those of each endpoint by its own, and every complaint is recorded; nothing else
/// changes.
pub proof fn law_judgements_count_at_most_once(b: BoardView, judgements: Seq<Judgement>)
    requires
        b.wf(),
        forall|i: int| 0 <= i < judgements.len() ==> (#[trigger] judgements[i]).index < b.apis.len(),
    ensures
        ({
            let after = settled_all(b, judgements);
            &&& passes(judgements) + complaints(judgements).len() <= judgements.len()
            &&& after.wf()
            &&& grew(b.run, after.run, passes(judgements), complaints(judgements).len())
            &&& after.apis.len() == b.apis.len()
            &&& forall|i: int|
                0 <= i < b.apis.len() ==> grew(
                    b.apis[i],
                    #[trigger] after.apis[i],
                    passes(judgements_at(judgements, i)),
                    complaints(judgements_at(judgements, i)).len(),
                )
            &&& after == (BoardView {
                run: after.run,
                apis: after.apis,
                assert_errors: counted_more(b.assert_errors, complaints(judgements)),
                ..b
            })
        }),
    decreases judgements.len(),
{
    lemma_judged_apart(judgements);
    if judgements.len() == 0 {
        lemma_grew_not(b.run);
        assert forall|i: int| 0 <= i < b.apis.len() implies grew(
            b.apis[i],
            #[trigger] b.apis[i],
            passes(judgements_at(judgements, i)),
            complaints(judgements_at(judgements, i)).len(),
        ) by {
            lemma_grew_not(b.apis[i]);
        }
    } else {
        let fewer = judgements.drop_last();
        let j = judgements.last();
        assert forall|i: int| 0 <= i < fewer.len() implies (#[trigger] fewer[i]).index
            < b.apis.len() by {
            assert(judgements[i].index < b.apis.len());
        }
        assert(judgements[judgements.len() - 1].index < b.apis.len());
        law_judgements_count_at_most_once(b, fewer);
        let before = settled_all(b, fewer);
        let after = settled_all(b, judgements);
        law_judgement_counts_at_most_once(before, j.index as int, j.name, j.url, j.verdict);
        lemma_grew_once(b.run, before.run, passes(fewer), complaints(fewer).len());
        match complaint(j.verdict) {
            None => {},
            Some(msg) => {
                let key = AssertErrKeyView { name: j.name, msg, url: j.url };
                assert(complaints(judgements).drop_last() == complaints(fewer));
                assert(complaints(judgements).last() == key);
            },
        }
        assert forall|i: int| 0 <= i < b.apis.len() implies grew(
            b.apis[i],
            #[trigger] after.apis[i],
            passes(judgements_at(judgements, i)),
            complaints(judgements_at(judgements, i)).len(),
        ) by {
            let own = judgements_at(fewer, i);
            assert(grew(b.apis[i], before.apis[i], passes(own), complaints(own).len()));
            if j.index == i {
                assert(own.push(j).drop_last() == own);
                assert(own.push(j).last() == j);
                lemma_grew_once(b.apis[i], before.apis[i], passes(own), complaints(own).len());
            }
        }
    }
}

proof fn lemma_all_at(judgements: Seq<Judgement>, index: int)
    requires
        forall|i: int| 0 <= i < judgements.len() ==> (#[trigger] judgements[i]).index == index,
    ensures
        judgements_at(judgements, index) == judgements,
    decreases judgements.len(),
{
    if judgements.len() > 0 {
        let fewer = judgements.drop_last();
        assert forall|i: int| 0 <= i < fewer.len() implies (#[trigger] fewer[i]).index == index by {
            assert(judgements[i].index == index);
        }
        lemma_all_at(fewer, index);
        assert(judgements[judgements.len() - 1].index == index);
        assert(fewer.push(judgements.last()) == judgements);
    }
}

/// Judgements of responses of one endpoint: the errors of the run, those of the endpoint and the
/// recorded assertion errors grow by the same number, and the successes of the run and of the
/// endpoint by the same number, wherever no counter wraps around.
pub proof fn law_judgements_grow_alike(b: BoardView, index: int, judgements: Seq<Judgement>)
    requires
        b.wf(),
        0 <= index < b.apis.len(),
        forall|i: int| 0 <= i < judgements.len() ==> (#[trigger] judgements[i]).index == index,
    ensures
        ({
            let after = settled_all(b, judgements);
            let passed = passes(judgements);
            let failed = complaints(judgements).len();
            let fits = |n: usize, more: nat| n + more <= usize::MAX;
            &&& passed + failed <= judgements.len()
            &&& fits(b.run.err_count, failed) ==> after.run.err_count == b.run.err_count + failed
            &&& fits(b.apis[index].err_count, failed) ==> after.apis[index].err_count
                == b.apis[index].err_count + failed
            &&& fits(b.run.successful_requests, passed) ==> after.run.successful_requests
                == b.run.successful_requests + passed
            &&& fits(b.apis[index].successful_requests, passed)
                ==> after.apis[index].successful_requests == b.apis[index].successful_requests
                + passed
            &&& room_for(b.assert_errors, complaints(judgements)) ==> sum_of(after.assert_errors)
                == sum_of(b.assert_errors) + failed
        }),
{
    assert forall|i: int| 0 <= i < judgements.len() implies (#[trigger] judgements[i]).index
        < b.apis.len() by {
        assert(judgements[i].index == index);
    }
    law_judgements_count_at_most_once(b, judgements);
    lemma_all_at(judgements, index);
    let after = settled_all(b, judgements);
    let passed = passes(judgements);
    let failed = complaints(judgements).len();
    let own = b.apis[index];
    assert(grew(own, after.apis[index], passed, failed));
    if b.run.err_count + failed <= usize::MAX {
        law_fitting_is_not_wrapped(b.run.err_count + failed);
    }
    if own.err_count + failed <= usize::MAX {
        law_fitting_is_not_wrapped(own.err_count + failed);
    }
    if b.run.successful_requests + passed <= usize::MAX {
        law_fitting_is_not_wrapped(b.run.successful_requests + passed);
    }
    if own.successful_requests + passed <= usize::MAX {
        law_fitting_is_not_wrapped(own.successful_requests + passed);
    }
    if room_for(b.assert_errors, complaints(judgements)) {
        law_sum_grows_by_all(b.assert_errors, complaints(judgements));
    }
}

/// An assertion holds of a document: its path selects exactly one value, and that one equals the
/// reference.
pub open spec fn is_met(doc: Value, option: AssertOption, supplied: Seq<Selection>) -> bool {
    exists|values: Seq<Value>| #[trigger]
        selects(doc, option.jsonpath@, supplied, values) && values.len() == 1 && json_equal(
            values[0],
            option.reference_object,
        )
}

/// How an assertion that does not hold of a document comes out.
pub open spec fn comes_out_as(
    doc: Value,
    option: AssertOption,
    supplied: Seq<Selection>,
    v: VerdictView,
) -> bool {
    match v {
        VerdictView::NoMatch => exists|values: Seq<Value>| #[trigger]
            selects(doc, option.jsonpath@, supplied, values) && values.len() == 0,
        VerdictView::ManyMatches => exists|values: Seq<Value>| #[trigger]
            selects(doc, option.jsonpath@, supplied, values) && values.len() >= 2,
        VerdictView::Different(expected, actual) => exists|values: Seq<Value>| #[trigger]
            selects(doc, option.jsonpath@, supplied, values) && values.len() == 1 && !json_equal(
                values[0],
                option.reference_object,
            ) && expected == json_debug(option.reference_object) && actual == json_debug(values[0]),
        VerdictView::BadPath(reason) => misses(doc, option.jsonpath@, supplied, reason),
        VerdictView::Unselected(path) => path == option.jsonpath@ && !(exists|values: Seq<Value>| #[trigger]
            selects(doc, path, supplied, values)) && !(exists|reason: Seq<char>| #[trigger]
            misses(doc, path, supplied, reason)),
        _ => false,
    }
}

proof fn lemma_one_comes_out(doc: Value, option: AssertOption, supplied: Seq<Selection>)
    ensures
        ({
            let v = judged_one(doc, option.jsonpath@, option.reference_object, supplied);
            &&& v is Passed <==> is_met(doc, option, supplied)
            &&& v !is Passed ==> comes_out_as(doc, option, supplied, v)
        }),
{
    let path = option.jsonpath@;
    law_selection_is_the_evaluation(doc, path, supplied);
    match selection(doc, path, supplied) {
        Some(Ok(values)) => {
            assert(selects(doc, path, supplied, values));
        },
        Some(Err(reason)) => {
            assert(misses(doc, path, supplied, reason));
        },
        None => {},
    }
    if is_met(doc, option, supplied) {
        let values = choose|values: Seq<Value>| #[trigger]
            selects(doc, path, supplied, values) && values.len() == 1 && json_equal(
                values[0],
                option.reference_object,
            );
        assert(selection(doc, path, supplied) == Some(Ok::<Seq<Value>, Seq<char>>(values)));
    }
}

/// Every assertion on a body is looked at: a body passes exactly where it is JSON and each of the
/// assertions holds of it, whichever and however many they are. The first that does not hold
/// decides how the judgement comes out. A body that is no JSON is told with the parser's error,
/// whatever the assertions.
pub proof fn law_every_assertion_is_looked_at(
    body: Seq<u8>,
    options: Seq<AssertOption>,
    supplied: Seq<Selection>,
)
    ensures
        ({
            let v = judged(body, assertions_view(options), supplied);
            match json_from_bytes(body) {
                Err(e) => v == VerdictView::Unreadable(json_error_debug(e)),
                Ok(doc) => if body.len() == 0 {
                    v is Passed
                } else {
                    &&& v is Passed <==> forall|i: int|
                        0 <= i < options.len() ==> is_met(doc, #[trigger] options[i], supplied)
                    &&& v !is Passed ==> exists|i: int| #[trigger]
                        decides(doc, options, i, supplied) && comes_out_as(
                            doc,
                            options[i],
                            supplied,
                            v,
                        )
                },
            }
        }),
{
    if let Ok(doc) = json_from_bytes(body) {
        if body.len() > 0 {
            lemma_all_looked_at(doc, options, supplied);
        }
    }
}

/// The assertion at `i` is the first that does not hold of a document.
pub open spec fn decides(
    doc: Value,
    options: Seq<AssertOption>,
    i: int,
    supplied: Seq<Selection>,
) -> bool {
    &&& 0 <= i < options.len()
    &&& !is_met(doc, options[i], supplied)
    &&& forall|j: int| 0 <= j < i ==> is_met(doc, #[trigger] options[j], supplied)
}

proof fn lemma_all_looked_at(doc: Value, options: Seq<AssertOption>, supplied: Seq<Selection>)
    ensures
        ({
            let v = judged_all(doc, assertions_view(options), supplied);
            &&& v is Passed <==> forall|i: int|
                0 <= i < options.len() ==> is_met(doc, #[trigger] options[i], supplied)
            &&& v !is Passed ==> exists|i: int| #[trigger]
                decides(doc, options, i, supplied) && comes_out_as(doc, options[i], supplied, v)
        }),
    decreases options.len(),
{
    if options.len() > 0 {
        let fewer = options.drop_last();
        let last = options.last();
        lemma_all_looked_at(doc, fewer, supplied);
        lemma_one_comes_out(doc, last, supplied);
        assert(assertions_view(options).drop_last() =~= assertions_view(fewer));
        assert(assertions_view(options).last() == (last.jsonpath@, last.reference_object));
        let v = judged_all(doc, assertions_view(options), supplied);
        let before = judged_all(doc, assertions_view(fewer), supplied);
        if before is Passed {
            assert forall|j: int| 0 <= j < fewer.len() implies is_met(
                doc,
                #[trigger] options[j],
                supplied,
            ) by {
                assert(is_met(doc, fewer[j], supplied));
            }
            assert(options[options.len() - 1] == last);
            if !(v is Passed) {
                assert(decides(doc, options, options.len() - 1, supplied));
            }
        } else {
            let i = choose|i: int| #[trigger]
                decides(doc, fewer, i, supplied) && comes_out_as(doc, fewer[i], supplied, before);
            assert(options[i] == fewer[i]);
            assert forall|j: int| 0 <= j < i implies is_met(
                doc,
                #[trigger] options[j],
                supplied,
            ) by {
                assert(is_met(doc, fewer[j], supplied));
            }
            assert(decides(doc, options, i, supplied));
        }
    }
}

/// A judgement counts as it comes out: a pass as one success of the run and of the endpoint, and
/// nothing else; a body that is no JSON, or an assertion that selects nothing, too much or another
/// value, as one error of both, recorded once under the endpoint's name and URL with a message of
/// its own kind; and a path that cannot be evaluated as nothing at all.
pub proof fn law_judgement_counts_as_it_comes_out(
    b: BoardView,
    index: int,
    name: Seq<char>,
    url: Seq<char>,
    v: VerdictView,
)
    requires
        0 <= index < b.apis.len(),
    ensures
        ({
            let after = settled(b, index, name, url, v);
            let told: Option<Seq<char>> = match v {
                VerdictView::Unreadable(e) => Some("JSONPath查询失败:"@ + e),
                VerdictView::NoMatch => Some("没有匹配到任何结果"@),
                VerdictView::ManyMatches => Some("匹配到多个值，无法断言"@),
                VerdictView::Different(expected, actual) => Some(
                    "预期结果："@ + expected + ", 实际结果："@ + actual,
                ),
                _ => None,
            };
            let passed: usize = if v is Passed {
                1
            } else {
                0
            };
            let failed: usize = if told is Some {
                1
            } else {
                0
            };
            let grown = |t: TallyView|
                TallyView {
                    successful_requests: t.successful_requests.wrapping_add(passed),
                    err_count: t.err_count.wrapping_add(failed),
                    ..t
                };
            &&& after.run == grown(b.run)
            &&& after.apis == b.apis.update(index, grown(b.apis[index]))
            &&& after.http_errors == b.http_errors
            &&& after.results == b.results
            &&& after.drafts == b.drafts
            &&& after.last_errors == b.last_errors
            &&& after.last_requests == b.last_requests
            &&& match told {
                None => after.assert_errors == b.assert_errors,
                Some(msg) => after.assert_errors == b.assert_errors.insert(
                    AssertErrKeyView { name, msg, url },
                    count_of(b.assert_errors, AssertErrKeyView { name, msg, url }).wrapping_add(1),
                ),
            }
        }),
{
    assert(b.apis.update(index, b.apis[index]) =~= b.apis);
}

} // verus!
