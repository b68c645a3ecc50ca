//! JSONPath: what a path selects from a JSON document.
//!
//! Paths are evaluated here, through `jsonpath_lib`, as long as they have few steps, no step of
//! their slices may be 0, and their filters hold no numbers that may be infinite and no brackets
//! but those of a quoted name. On others the evaluation may give up in the middle, so their
//! outcome is asked of the caller, who supplies it as a [`Selection`].

use jsonpath_lib::JsonPathError;
use serde_json::Value;
use vstd::prelude::*;

use crate::text::{chars_of, same_text};

verus! {

/// `jsonpath_lib::JsonPathError`, what is wrong with a path.
#[verifier::external_type_specification]
#[verifier::external_body]
pub struct ExJsonPathError(jsonpath_lib::JsonPathError);

/// An evaluation that the caller made: the values that a path selected, or the debug form of its
/// error.
pub struct Selection {
    pub path: String,
    pub outcome: Result<Vec<Value>, String>,
}

/// A visible ASCII character that no number equal to 0 begins with.
pub open spec fn is_slice_part(c: char) -> bool {
    '!' <= c <= '~' && c != '0' && c != '+'
}

/// A digit.
pub open spec fn is_digit(c: char) -> bool {
    '0' <= c <= '9'
}

/// An ASCII letter.
pub open spec fn is_letter(c: char) -> bool {
    'a' <= c <= 'z' || 'A' <= c <= 'Z'
}

/// A quotation mark.
pub open spec fn is_quote(c: char) -> bool {
    c == '\'' || c == '"'
}

/// A character behind which a quotation mark opens a quotation.
pub open spec fn before_quote(c: char) -> bool {
    c == '[' || c == '(' || c == ',' || c == '=' || c == '<' || c == '>' || c == ' '
}

/// A character that a step, a nested expression or another term of a condition begins with.
pub open spec fn opens_step(c: char) -> bool {
    c == '.' || c == '[' || c == '(' || c == '&' || c == '|'
}

/// A character that opens a filter, a slice, a list or another path.
pub open spec fn is_path_mark(c: char) -> bool {
    c == '?' || c == '$' || c == ':' || c == ','
}

/// The character at `j`, and a space where there is none.
pub open spec fn char_at(p: Seq<char>, j: int) -> char {
    if 0 <= j < p.len() {
        p[j]
    } else {
        ' '
    }
}

/// The letter at `j` may open the exponent of a number.
pub open spec fn exponent_at(p: Seq<char>, j: int) -> bool {
    &&& char_at(p, j) == 'e' || char_at(p, j) == 'E'
    &&& is_digit(char_at(p, j - 1)) || char_at(p, j - 1) == '.'
    &&& is_digit(char_at(p, j + 1)) || char_at(p, j + 1) == '+' || char_at(p, j + 1) == '-'
}

/// The sign at `j` may open a number that is written as a word, as infinity is.
pub open spec fn signed_word_at(p: Seq<char>, j: int) -> bool {
    &&& char_at(p, j) == '-'
    &&& is_letter(char_at(p, j + 1))
    &&& !is_letter(char_at(p, j - 1)) && !is_digit(char_at(p, j - 1))
}

/// What part of a path a place belongs to.
#[derive(Clone, Copy, Debug)]
pub enum Part {
    /// Outside filters.
    Steps,
    /// In a filter.
    Filter,
    /// In the brackets of a quoted name in a filter.
    Name,
    /// It cannot be told any more.
    Unknown,
}

/// What is known of a path up to a place.
#[derive(Clone, Copy, Debug)]
pub struct PathScan {
    pub part: Part,
    /// The mark of the quotation that the place is in.
    pub quote: Option<char>,
    /// A colon stands before in the same brackets.
    pub sliced: bool,
    /// How many steps, nested expressions and terms begin before.
    pub steps: usize,
    /// How many digits stand before in filters.
    pub digits: usize,
}

/// A scan that has seen nothing.
pub open spec fn scan_start() -> PathScan {
    PathScan { part: Part::Steps, quote: None, sliced: false, steps: 0, digits: 0 }
}

/// A scan behind the character at `j`, which is in no quotation and is no quotation mark; `None`
/// where the evaluation may give up on it.
pub open spec fn scan_plain(s: PathScan, p: Seq<char>, j: int) -> Option<PathScan> {
    let c = char_at(p, j);
    let next = char_at(p, j + 1);
    match s.part {
        Part::Steps => if c == ':' {
            if s.sliced && !is_slice_part(next) {
                None
            } else {
                Some(PathScan { sliced: true, ..s })
            }
        } else if c == '[' {
            Some(PathScan { sliced: false, ..s })
        } else if c == '?' {
            Some(PathScan { part: Part::Filter, ..s })
        } else {
            Some(s)
        },
        Part::Filter => if is_path_mark(c) || exponent_at(p, j) || signed_word_at(p, j) {
            None
        } else if c == '[' {
            if is_quote(next) && char_at(p, j - 1) != '.' {
                Some(PathScan { part: Part::Name, ..s })
            } else {
                None
            }
        } else if c == ']' {
            Some(PathScan { part: Part::Steps, ..s })
        } else {
            Some(s)
        },
        Part::Name => if c == ']' {
            Some(PathScan { part: Part::Filter, ..s })
        } else {
            None
        },
        Part::Unknown => if is_path_mark(c) || c == '[' || exponent_at(p, j) || signed_word_at(
            p,
            j,
        ) {
            None
        } else {
            Some(s)
        },
    }
}

/// A scan behind the character at `j`; `None` where the evaluation may give up on it.
pub open spec fn scan_next(s: PathScan, p: Seq<char>, j: int) -> Option<PathScan> {
    let c = char_at(p, j);
    match s.quote {
        Some(mark) => if c == mark {
            Some(PathScan { quote: None, ..s })
        } else if c == '\\' {
            Some(PathScan { quote: None, part: Part::Unknown, ..s })
        } else {
            Some(s)
        },
        None => if is_quote(c) && s.part !is Unknown {
            if before_quote(char_at(p, j - 1)) {
                Some(PathScan { quote: Some(c), ..s })
            } else {
                Some(PathScan { part: Part::Unknown, ..s })
            }
        } else if opens_step(c) && s.steps >= 256 {
            None
        } else if is_digit(c) && s.part !is Steps && s.digits >= 256 {
            None
        } else {
            let steps = if opens_step(c) {
                (s.steps + 1) as usize
            } else {
                s.steps
            };
            let digits = if is_digit(c) && s.part !is Steps {
                (s.digits + 1) as usize
            } else {
                s.digits
            };
            scan_plain(PathScan { steps, digits, ..s }, p, j)
        },
    }
}

/// A scan behind the first `n` characters; `None` where the evaluation may give up on them.
pub open spec fn scanned(p: Seq<char>, n: int) -> Option<PathScan>
    decreases n,
{
    if n <= 0 {
        Some(scan_start())
    } else {
        match scanned(p, n - 1) {
            None => None,
            Some(s) => scan_next(s, p, n - 1),
        }
    }
}

/// The path has few steps, no step of its slices may be 0, and its filters hold no numbers that
/// may be infinite and no brackets but those of a quoted name.
pub open spec fn plain_path(p: Seq<char>) -> bool {
    scanned(p, p.len() as int) is Some
}

proof fn lemma_scan_stops(p: Seq<char>, n: int, m: int)
    requires
        n <= m,
        scanned(p, n) is None,
    ensures
        scanned(p, m) is None,
    decreases m - n,
{
    if n < m {
        lemma_scan_stops(p, n, m - 1);
    }
}

/// What `jsonpath_lib::select` finds for a plain path in a document.
pub uninterp spec fn selected(doc: Value, path: Seq<char>) -> Result<Seq<Value>, JsonPathError>;

/// The debug form of a path error.
pub uninterp spec fn path_error_debug(e: JsonPathError) -> Seq<char>;

/// `jsonpath_lib::select`. Left out are paths with a slice whose step may be 0, with numbers in a
/// filter that may be infinite, or with lists, other paths or brackets other than those of a
/// quoted name in a filter, on some of which it panics, and paths with many steps, over which it
/// recurses. The contract names the outcome.
#[verifier::external_body]
fn select_values(doc: &Value, path: &str) -> (r: Result<Vec<Value>, JsonPathError>)
    requires
        plain_path(path@),
    ensures
        match r {
            Ok(values) => selected(*doc, path@) == Ok::<Seq<Value>, JsonPathError>(values@),
            Err(e) => selected(*doc, path@) == Err::<Seq<Value>, JsonPathError>(e),
        },
{
    jsonpath_lib::select(doc, path).map(|found| found.into_iter().cloned().collect())
}

/// The debug form of a `JsonPathError`. The contract names it.
#[verifier::external_body]
fn path_error_text(e: &JsonPathError) -> (r: String)
    ensures
        r@ == path_error_debug(*e),
{
    format!("{:?}", e)
}

/// The values in an outcome, or the text of its error.
pub open spec fn outcome_view(o: Result<Vec<Value>, String>) -> Result<Seq<Value>, Seq<char>> {
    match o {
        Ok(values) => Ok(values@),
        Err(text) => Err(text@),
    }
}

/// The outcome that the caller supplied for a path.
pub open spec fn supplied_selection(supplied: Seq<Selection>, path: Seq<char>) -> Option<
    Result<Seq<Value>, Seq<char>>,
>
    decreases supplied.len(),
{
    if supplied.len() == 0 {
        None
    } else if supplied[0].path@ == path {
        Some(outcome_view(supplied[0].outcome))
    } else {
        supplied_selection(supplied.drop_first(), path)
    }
}

/// What a path selects: `None` where that is left to the caller, who has not evaluated it.
pub open spec fn selection(doc: Value, path: Seq<char>, supplied: Seq<Selection>) -> Option<
    Result<Seq<Value>, Seq<char>>,
> {
    if plain_path(path) {
        Some(
            match selected(doc, path) {
                Ok(values) => Ok(values),
                Err(e) => Err(path_error_debug(e)),
            },
        )
    } else {
        supplied_selection(supplied, path)
    }
}

/// Tells whether a character is a digit.
fn digit(c: char) -> (r: bool)
    ensures
        r == is_digit(c),
{
    '0' <= c && c <= '9'
}

/// Tells whether a character is an ASCII letter.
fn letter(c: char) -> (r: bool)
    ensures
        r == is_letter(c),
{
    ('a' <= c && c <= 'z') || ('A' <= c && c <= 'Z')
}

/// Moves a scan on behind the character at `j`, which is in no quotation and is no quotation
/// mark.
fn move_plain(s: PathScan, p: &Vec<char>, j: usize) -> (r: Option<PathScan>)
    requires
        j < p.len(),
    ensures
        r == scan_plain(s, p@, j as int),
{
    let c = p[j];
    let before = if j == 0 {
        ' '
    } else {
        p[j - 1]
    };
    let next = if p.len() - j > 1 {
        p[j + 1]
    } else {
        ' '
    };
    let mark = c == '?' || c == '$' || c == ':' || c == ',';
    let exponent = (c == 'e' || c == 'E') && (digit(before) || before == '.') && (digit(next)
        || next == '+' || next == '-');
    let signed_word = c == '-' && letter(next) && !letter(before) && !digit(before);
    let refused = mark || exponent || signed_word;
    match s.part {
        Part::Steps => {
            if c == ':' {
                let slice_part = '!' <= next && next <= '~' && next != '0' && next != '+';
                if s.sliced && !slice_part {
                    None
                } else {
                    Some(PathScan { sliced: true, ..s })
                }
            } else if c == '[' {
                Some(PathScan { sliced: false, ..s })
            } else if c == '?' {
                Some(PathScan { part: Part::Filter, ..s })
            } else {
                Some(s)
            }
        },
        Part::Filter => {
            if refused {
                None
            } else if c == '[' {
                if (next == '\'' || next == '"') && before != '.' {
                    Some(PathScan { part: Part::Name, ..s })
                } else {
                    None
                }
            } else if c == ']' {
                Some(PathScan { part: Part::Steps, ..s })
            } else {
                Some(s)
            }
        },
        Part::Name => {
            if c == ']' {
                Some(PathScan { part: Part::Filter, ..s })
            } else {
                None
            }
        },
        Part::Unknown => {
            if refused || c == '[' {
                None
            } else {
                Some(s)
            }
        },
    }
}

/// Moves a scan on behind the character at `j`.
fn move_next(s: PathScan, p: &Vec<char>, j: usize) -> (r: Option<PathScan>)
    requires
        j < p.len(),
        s.steps <= 256,
        s.digits <= 256,
    ensures
        r == scan_next(s, p@, j as int),
        r matches Some(t) ==> t.steps <= 256 && t.digits <= 256,
{
    let c = p[j];
    match s.quote {
        Some(mark) => {
            return if c == mark {
                Some(PathScan { quote: None, ..s })
            } else if c == '\\' {
                Some(PathScan { quote: None, part: Part::Unknown, ..s })
            } else {
                Some(s)
            };
        },
        None => {},
    }
    let (outside, unknown) = match s.part {
        Part::Steps => (true, false),
        Part::Unknown => (false, true),
        _ => (false, false),
    };
    if (c == '\'' || c == '"') && !unknown {
        let before = if j == 0 {
            ' '
        } else {
            p[j - 1]
        };
        return if before == '[' || before == '(' || before == ',' || before == '=' || before == '<'
            || before == '>' || before == ' ' {
            Some(PathScan { quote: Some(c), ..s })
        } else {
            Some(PathScan { part: Part::Unknown, ..s })
        };
    }
    let step = c == '.' || c == '[' || c == '(' || c == '&' || c == '|';
    let number = digit(c) && !outside;
    if (step && s.steps >= 256) || (number && s.digits >= 256) {
        return None;
    }
    let mut counted = s;
    if step {
        counted.steps = counted.steps + 1;
    }
    if number {
        counted.digits = counted.digits + 1;
    }
    move_plain(counted, p, j)
}

/// Tells whether a path can be evaluated here.
pub fn is_plain_path(path: &str) -> (r: bool)
    ensures
        r == plain_path(path@),
{
    let p = chars_of(path);
    let mut s = PathScan { part: Part::Steps, quote: None, sliced: false, steps: 0, digits: 0 };
    let mut i: usize = 0;
    while i < p.len()
        invariant
            p@ == path@,
            0 <= i <= p.len(),
            scanned(path@, i as int) == Some(s),
            s.steps <= 256,
            s.digits <= 256,
        decreases p.len() - i,
    {
        s = match move_next(s, &p, i) {
            None => {
                proof {
                    lemma_scan_stops(path@, i + 1, path@.len() as int);
                }
                return false;
            },
            Some(t) => t,
        };
        i = i + 1;
    }
    true
}

/// A copy of a list of values.
fn values_clone(values: &Vec<Value>) -> (r: Vec<Value>)
    ensures
        r@ == values@,
{
    let mut r: Vec<Value> = Vec::new();
    let mut i: usize = 0;
    while i < values.len()
        invariant
            0 <= i <= values.len(),
            r@ == values@.take(i as int),
        decreases values.len() - i,
    {
        r.push(values[i].clone());
        i = i + 1;
    }
    r
}

/// What a path selects from a document: the values, or the debug form of the path's error.
/// `None` where the evaluation is the caller's and is not among those supplied.
pub fn select(doc: &Value, path: &str, supplied: &Vec<Selection>) -> (r: Option<
    Result<Vec<Value>, String>,
>)
    ensures
        match r {
            None => selection(*doc, path@, supplied@) is None,
            Some(o) => selection(*doc, path@, supplied@) == Some(outcome_view(o)),
        },
{
    if is_plain_path(path) {
        return match select_values(doc, path) {
            Ok(values) => Some(Ok(values)),
            Err(e) => Some(Err(path_error_text(&e))),
        };
    }
    let mut i: usize = 0;
    assert(supplied@.skip(0) == supplied@);
    while i < supplied.len()
        invariant
            0 <= i <= supplied.len(),
            !plain_path(path@),
            supplied_selection(supplied@, path@) == supplied_selection(
                supplied@.skip(i as int),
                path@,
            ),
        decreases supplied.len() - i,
    {
        assert(supplied@.skip(i as int)[0] == supplied@[i as int]);
        assert(supplied@.skip(i as int).drop_first() == supplied@.skip(i + 1));
        if same_text(supplied[i].path.as_str(), path) {
            return match &supplied[i].outcome {
                Ok(values) => Some(Ok(values_clone(values))),
                Err(text) => Some(Err(text.clone())),
            };
        }
        i = i + 1;
    }
    None
}

/// The caller's evaluation of a path is the first that was supplied for it.
pub open spec fn first_evaluated(supplied: Seq<Selection>, path: Seq<char>, i: int) -> bool {
    &&& 0 <= i < supplied.len()
    &&& supplied[i].path@ == path
    &&& forall|j: int| 0 <= j < i ==> (#[trigger] supplied[j]).path@ != path
}

/// A path selects these values from a document.
pub open spec fn selects(
    doc: Value,
    path: Seq<char>,
    supplied: Seq<Selection>,
    values: Seq<Value>,
) -> bool {
    if plain_path(path) {
        selected(doc, path) == Ok::<Seq<Value>, JsonPathError>(values)
    } else {
        exists|i: int| #[trigger]
            first_evaluated(supplied, path, i) && (supplied[i].outcome matches Ok(found)
                && found@ == values)
    }
}

/// A path cannot be evaluated on a document, for this reason.
pub open spec fn misses(
    doc: Value,
    path: Seq<char>,
    supplied: Seq<Selection>,
    reason: Seq<char>,
) -> bool {
    if plain_path(path) {
        selected(doc, path) matches Err(e) && reason == path_error_debug(e)
    } else {
        exists|i: int| #[trigger]
            first_evaluated(supplied, path, i) && (supplied[i].outcome matches Err(text) && text@
                == reason)
    }
}

proof fn lemma_evaluated(supplied: Seq<Selection>, path: Seq<char>)
    ensures
        supplied_selection(supplied, path) is None <==> forall|i: int|
            0 <= i < supplied.len() ==> (#[trigger] supplied[i]).path@ != path,
        forall|i: int| #[trigger]
            first_evaluated(supplied, path, i) ==> supplied_selection(supplied, path) == Some(
                outcome_view(supplied[i].outcome),
            ),
        supplied_selection(supplied, path) is Some ==> exists|i: int|
            first_evaluated(supplied, path, i),
    decreases supplied.len(),
{
    if supplied.len() > 0 {
        let rest = supplied.drop_first();
        lemma_evaluated(rest, path);
        if supplied[0].path@ == path {
            assert(first_evaluated(supplied, path, 0));
        } else {
            assert(supplied_selection(supplied, path) == supplied_selection(rest, path));
            assert forall|i: int| #[trigger]
                first_evaluated(supplied, path, i) implies supplied_selection(supplied, path)
                == Some(outcome_view(supplied[i].outcome)) by {
                assert(rest[i - 1] == supplied[i]);
                assert forall|j: int| 0 <= j < i - 1 implies (#[trigger] rest[j]).path@ != path by {
                    assert(rest[j] == supplied[j + 1]);
                }
                assert(first_evaluated(rest, path, i - 1));
            }
            if supplied_selection(rest, path) is Some {
                let i = choose|i: int| first_evaluated(rest, path, i);
                assert forall|j: int| 0 <= j < i + 1 implies (#[trigger] supplied[j]).path@
                    != path by {
                    if j > 0 {
                        assert(rest[j - 1] == supplied[j]);
                    }
                }
                assert(rest[i] == supplied[i + 1]);
                assert(first_evaluated(supplied, path, i + 1));
                assert(supplied[i + 1].path@ == path);
            } else {
                assert forall|i: int| 0 <= i < supplied.len() implies (
                #[trigger] supplied[i]).path@ != path by {
                    if i > 0 {
                        assert(rest[i - 1] == supplied[i]);
                    }
                }
            }
        }
    }
}

/// A path selects what its evaluation gives: the one that is made here where the path is plain,
/// else the first that the caller supplied for it. It either selects values, or cannot be
/// evaluated for a reason, or its evaluation is wanting.
pub proof fn law_selection_is_the_evaluation(
    doc: Value,
    path: Seq<char>,
    supplied: Seq<Selection>,
)
    ensures
        forall|values: Seq<Value>|
            selection(doc, path, supplied) == Some(Ok::<Seq<Value>, Seq<char>>(values))
                <==> #[trigger] selects(doc, path, supplied, values),
        forall|reason: Seq<char>|
            selection(doc, path, supplied) == Some(Err::<Seq<Value>, Seq<char>>(reason))
                <==> #[trigger] misses(doc, path, supplied, reason),
        selection(doc, path, supplied) is None <==> !plain_path(path) && forall|i: int|
            0 <= i < supplied.len() ==> (#[trigger] supplied[i]).path@ != path,
{
    lemma_evaluated(supplied, path);
    if !plain_path(path) {
        assert forall|values: Seq<Value>|
            selection(doc, path, supplied) == Some(Ok::<Seq<Value>, Seq<char>>(values))
                <==> #[trigger] selects(doc, path, supplied, values) by {
            if selection(doc, path, supplied) is Some {
                let i = choose|i: int| first_evaluated(supplied, path, i);
                assert(first_evaluated(supplied, path, i));
            }
            if selects(doc, path, supplied, values) {
                let i = choose|i: int| #[trigger]
                    first_evaluated(supplied, path, i) && (supplied[i].outcome matches Ok(found)
                        && found@ == values);
                assert(supplied_selection(supplied, path) == Some(
                    outcome_view(supplied[i].outcome),
                ));
            }
        }
        assert forall|reason: Seq<char>|
            selection(doc, path, supplied) == Some(Err::<Seq<Value>, Seq<char>>(reason))
                <==> #[trigger] misses(doc, path, supplied, reason) by {
            if selection(doc, path, supplied) is Some {
                let i = choose|i: int| first_evaluated(supplied, path, i);
                assert(first_evaluated(supplied, path, i));
            }
            if misses(doc, path, supplied, reason) {
                let i = choose|i: int| #[trigger]
                    first_evaluated(supplied, path, i) && (supplied[i].outcome matches Err(text)
                        && text@ == reason);
                assert(supplied_selection(supplied, path) == Some(
                    outcome_view(supplied[i].outcome),
                ));
            }
        }
    }
}

/// How many of the first `n` places of a path begin a step, a nested expression or a term.
pub open spec fn steps_in(p: Seq<char>, n: int) -> nat
    decreases n,
{
    if n <= 0 {
        0
    } else {
        let c = p[n - 1];
        steps_in(p, n - 1) + (if c == '.' || c == '[' || c == '(' || c == '&' || c == '|' {
            1nat
        } else {
            0
        })
    }
}

proof fn lemma_steps_grow(p: Seq<char>, n: int, m: int)
    requires
        n <= m,
    ensures
        steps_in(p, n) <= steps_in(p, m),
    decreases m - n,
{
    if n < m {
        lemma_steps_grow(p, n, m - 1);
    }
}

/// A character that neither opens nor ends a filter, a slice or a quotation.
pub open spec fn is_ordinary(c: char) -> bool {
    c != '?' && c != ':' && c != '\'' && c != '"'
}

proof fn lemma_steps_scanned(p: Seq<char>, n: int)
    requires
        0 <= n <= p.len(),
        forall|j: int| 0 <= j < n ==> is_ordinary(#[trigger] p[j]),
    ensures
        scanned(p, n) == (if steps_in(p, n) <= 256 {
            Some(PathScan { steps: steps_in(p, n) as usize, ..scan_start() })
        } else {
            None
        }),
    decreases n,
{
    if n > 0 {
        lemma_steps_scanned(p, n - 1);
    }
}

/// A path without filters, slices and quoted names is evaluated here, however long it is, exactly
/// where it has up to 256 steps.
pub proof fn law_ordinary_paths_are_plain(p: Seq<char>)
    requires
        forall|j: int| 0 <= j < p.len() ==> is_ordinary(#[trigger] p[j]),
    ensures
        plain_path(p) <==> steps_in(p, p.len() as int) <= 256,
{
    lemma_steps_scanned(p, p.len() as int);
}

proof fn lemma_name_scanned(p: Seq<char>, mark: char, at: int, end: int, n: int)
    requires
        mark == '\'' || mark == '"',
        0 <= at,
        at + 1 < n <= end < p.len(),
        forall|j: int| 0 <= j < at ==> is_ordinary(#[trigger] p[j]),
        p[at] == '[',
        p[at + 1] == mark,
        forall|j: int| at + 1 < j < end ==> (#[trigger] p[j]) != mark && p[j] != '\\',
        steps_in(p, at) < 256,
    ensures
        scanned(p, n) == Some(
            PathScan { steps: (steps_in(p, at) + 1) as usize, quote: Some(mark), ..scan_start() },
        ),
    decreases n,
{
    if n == at + 2 {
        lemma_steps_scanned(p, at);
        assert(scanned(p, at + 1) == scan_next(scanned(p, at)->Some_0, p, at));
        assert(scanned(p, at + 2) == scan_next(scanned(p, at + 1)->Some_0, p, at + 1));
    } else {
        lemma_name_scanned(p, mark, at, end, n - 1);
        assert(p[n - 1] != mark);
    }
}

/// A path whose last step is a quoted name in brackets is evaluated here, with either quotation
/// mark, whatever characters but that mark and backslashes the name holds.
pub proof fn law_quoted_names_are_plain(p: Seq<char>, mark: char, at: int)
    requires
        mark == '\'' || mark == '"',
        0 <= at,
        at + 3 < p.len(),
        forall|j: int| 0 <= j < at ==> is_ordinary(#[trigger] p[j]),
        steps_in(p, at) < 256,
        p[at] == '[',
        p[at + 1] == mark,
        p[p.len() - 2] == mark,
        p[p.len() - 1] == ']',
        forall|j: int| at + 1 < j < p.len() - 2 ==> (#[trigger] p[j]) != mark && p[j] != '\\',
    ensures
        plain_path(p),
{
    let end = p.len() - 2;
    lemma_name_scanned(p, mark, at, end, end);
    assert(scanned(p, end + 1) == scan_next(scanned(p, end)->Some_0, p, end));
    assert(scanned(p, end + 2) == scan_next(scanned(p, end + 1)->Some_0, p, end + 1));
}

/// A character of a condition that holds no other path, no list, no brackets, no quotation and no
/// number that may be beyond all bounds.
pub open spec fn is_simple(c: char) -> bool {
    is_ordinary(c) && c != '$' && c != ',' && c != '[' && c != ']' && c != 'e' && c != 'E' && c
        != '-'
}

proof fn lemma_filter_scanned(p: Seq<char>, at: int, end: int, n: int)
    requires
        0 <= at < n <= end < p.len(),
        forall|j: int| 0 <= j < at ==> is_ordinary(#[trigger] p[j]),
        p[at] == '?',
        forall|j: int| at < j < end ==> is_simple(#[trigger] p[j]),
        steps_in(p, n) <= 256,
        end - at <= 256,
    ensures
        scanned(p, n) matches Some(s) && s.digits <= n - at && s == (PathScan {
            part: Part::Filter,
            steps: steps_in(p, n) as usize,
            digits: s.digits,
            ..scan_start()
        }),
    decreases n,
{
    lemma_steps_grow(p, n - 1, n);
    if n == at + 1 {
        lemma_steps_scanned(p, at);
        assert(scanned(p, at + 1) == scan_next(scanned(p, at)->Some_0, p, at));
    } else {
        lemma_filter_scanned(p, at, end, n - 1);
        assert(is_simple(p[n - 1]));
    }
}

proof fn lemma_rest_scanned(p: Seq<char>, at: int, end: int, n: int)
    requires
        0 <= at < end < n <= p.len(),
        forall|j: int| 0 <= j < at ==> is_ordinary(#[trigger] p[j]),
        p[at] == '?',
        forall|j: int| at < j < end ==> is_simple(#[trigger] p[j]),
        p[end] == ']',
        forall|j: int| end < j < n ==> is_ordinary(#[trigger] p[j]),
        steps_in(p, n) <= 256,
        end - at <= 256,
    ensures
        scanned(p, n) matches Some(s) && s == (PathScan {
            steps: steps_in(p, n) as usize,
            digits: s.digits,
            ..scan_start()
        }),
    decreases n,
{
    lemma_steps_grow(p, n - 1, n);
    if n == end + 1 {
        lemma_filter_scanned(p, at, end, end);
        assert(scanned(p, end + 1) == scan_next(scanned(p, end)->Some_0, p, end));
    } else {
        lemma_rest_scanned(p, at, end, n - 1);
    }
}

/// A path with a filter is evaluated here where the filter's condition is simple and has up to 256
/// characters, and the path has up to 256 steps.
pub proof fn law_simple_filters_are_plain(p: Seq<char>, at: int, end: int)
    requires
        0 <= at < end < p.len(),
        forall|j: int| 0 <= j < at ==> is_ordinary(#[trigger] p[j]),
        p[at] == '?',
        forall|j: int| at < j < end ==> is_simple(#[trigger] p[j]),
        p[end] == ']',
        forall|j: int| end < j < p.len() ==> is_ordinary(#[trigger] p[j]),
        steps_in(p, p.len() as int) <= 256,
        end - at <= 256,
    ensures
        plain_path(p),
{
    lemma_rest_scanned(p, at, end, p.len() as int);
}

/// A filter that holds another path, a list, or brackets around anything but a quoted name is left
/// to the caller.
pub proof fn law_filters_in_filters_are_not_plain(p: Seq<char>, at: int, k: int)
    requires
        0 <= at < k < p.len(),
        forall|j: int| 0 <= j < at ==> is_ordinary(#[trigger] p[j]),
        p[at] == '?',
        forall|j: int| at < j < k ==> is_simple(#[trigger] p[j]),
        p[k] == '$' || p[k] == ',' || p[k] == '?' || p[k] == ':' || (p[k] == '[' && (k + 1
            == p.len() || (p[k + 1] != '\'' && p[k + 1] != '"'))),
        steps_in(p, k) <= 256,
        k - at <= 256,
    ensures
        !plain_path(p),
{
    lemma_filter_scanned(p, at, k, k);
    assert(scanned(p, k + 1) == scan_next(scanned(p, k)->Some_0, p, k));
    lemma_scan_stops(p, k + 1, p.len() as int);
}

proof fn lemma_slice_scanned(p: Seq<char>, at: int, n: int)
    requires
        0 <= at < n <= p.len(),
        forall|j: int| 0 <= j < at ==> is_ordinary(#[trigger] p[j]),
        p[at] == ':',
        forall|j: int| at < j < n ==> is_ordinary(#[trigger] p[j]) && p[j] != '[',
        steps_in(p, n) <= 256,
    ensures
        scanned(p, n) == Some(
            PathScan { steps: steps_in(p, n) as usize, sliced: true, ..scan_start() },
        ),
    decreases n,
{
    lemma_steps_grow(p, n - 1, n);
    if n == at + 1 {
        lemma_steps_scanned(p, at);
        assert(scanned(p, at + 1) == scan_next(scanned(p, at)->Some_0, p, at));
    } else {
        lemma_slice_scanned(p, at, n - 1);
    }
}

/// A slice with a step that may be 0 is left to the caller, and one without a step is not.
pub proof fn law_zero_steps_are_not_plain(p: Seq<char>, at: int, k: int)
    requires
        0 <= at < k <= p.len(),
        forall|j: int| 0 <= j < at ==> is_ordinary(#[trigger] p[j]),
        p[at] == ':',
        forall|j: int| at < j < k ==> is_ordinary(#[trigger] p[j]) && p[j] != '[',
        steps_in(p, k) <= 256,
    ensures
        k == p.len() ==> plain_path(p),
        k + 1 < p.len() && p[k] == ':' && (p[k + 1] == '0' || p[k + 1] == '+' || p[k + 1] == ' ')
            ==> !plain_path(p),
{
    lemma_slice_scanned(p, at, k);
    if k + 1 < p.len() && p[k] == ':' {
        assert(scanned(p, k + 1) == scan_next(scanned(p, k)->Some_0, p, k));
        if p[k + 1] == '0' || p[k + 1] == '+' || p[k + 1] == ' ' {
            lemma_scan_stops(p, k + 1, p.len() as int);
        }
    }
}

/// A path with a filter that compares with a text.
pub open spec fn compares_text(
    p: Seq<char>,
    mark: char,
    at: int,
    first: int,
    last: int,
    end: int,
) -> bool {
    &&& mark == '\'' || mark == '"'
    &&& 0 <= at
    &&& at + 1 < first < last < end < p.len() <= 256
    &&& forall|j: int| 0 <= j < at ==> is_ordinary(#[trigger] p[j])
    &&& p[at] == '?'
    &&& forall|j: int| at < j < first ==> is_simple(#[trigger] p[j])
    &&& p[first - 1] == '=' || p[first - 1] == '<' || p[first - 1] == '>' || p[first - 1] == ' '
    &&& p[first] == mark
    &&& forall|j: int| first < j < last ==> (#[trigger] p[j]) != mark && p[j] != '\\'
    &&& p[last] == mark
    &&& forall|j: int| last < j < end ==> is_simple(#[trigger] p[j])
    &&& p[end] == ']'
    &&& forall|j: int| end < j < p.len() ==> is_ordinary(#[trigger] p[j])
}

proof fn lemma_steps_bound(p: Seq<char>, n: int)
    requires
        0 <= n,
    ensures
        steps_in(p, n) <= n,
    decreases n,
{
    if n > 0 {
        lemma_steps_bound(p, n - 1);
    }
}

proof fn lemma_text_scanned(
    p: Seq<char>,
    mark: char,
    at: int,
    first: int,
    last: int,
    end: int,
    n: int,
)
    requires
        compares_text(p, mark, at, first, last, end),
        first <= n <= p.len(),
    ensures
        scanned(p, n) matches Some(s) && {
            &&& s.steps <= n
            &&& s.digits <= n
            &&& !s.sliced
            &&& s.quote == (if first < n <= last {
                Some(mark)
            } else {
                None
            })
            &&& s.part == (if n <= end {
                Part::Filter
            } else {
                Part::Steps
            })
        },
    decreases n,
{
    if n == first {
        lemma_steps_bound(p, n);
        lemma_filter_scanned(p, at, first, first);
    } else {
        lemma_text_scanned(p, mark, at, first, last, end, n - 1);
        let c = p[n - 1];
        if n - 1 < last && n - 1 > first {
            assert(c != mark);
        } else if last < n - 1 < end {
            assert(is_simple(c));
        } else if end < n - 1 {
            assert(is_ordinary(c));
        }
        assert(scanned(p, n) == scan_next(scanned(p, n - 1)->Some_0, p, n - 1));
    }
}

/// A path of up to 256 characters with a filter that compares with a quoted text is evaluated
/// here, whatever characters but the quotation mark and backslashes the text holds.
pub proof fn law_text_filters_are_plain(
    p: Seq<char>,
    mark: char,
    at: int,
    first: int,
    last: int,
    end: int,
)
    requires
        compares_text(p, mark, at, first, last, end),
    ensures
        plain_path(p),
{
    lemma_text_scanned(p, mark, at, first, last, end, p.len() as int);
}

} // verus!
