//! Templates: texts in which `{{name}}` stands for an extracted value.
//!
//! Templates are rendered here, through `handlebars`, as long as they nest in few places and hold
//! no decorator, no block of a partial and no conditional branch behind a tilde. On others the
//! rendering may recurse deeply or give up, so it is asked of the caller, who supplies it as a [`Rendering`].

use handlebars::Handlebars;
use serde_json::Value;
use vstd::prelude::*;

use crate::text::{chars_of, opt_clone, opt_view, same_text};

verus! {

/// A rendering that the caller made: the text a template came out as, or `None` where it could
/// not be rendered.
pub struct Rendering {
    pub template: String,
    pub text: Option<String>,
}

/// Two opening braces stand at `i`.
pub open spec fn tag_opens(t: Seq<char>, i: int) -> bool {
    0 <= i && i + 1 < t.len() && t[i] == '{' && t[i + 1] == '{'
}

/// Two closing braces stand at `k`.
pub open spec fn tag_closes(t: Seq<char>, k: int) -> bool {
    0 <= k && k + 1 < t.len() && t[k] == '}' && t[k + 1] == '}'
}

/// A character that may stand between the opening braces of a tag and its mark.
pub open spec fn is_lead(c: char) -> bool {
    c == ' ' || c == '\t' || c == '\n' || c == '\r' || c == '~' || c == '{' || c == '#'
}

/// Position `j` is the first one behind the opening braces at `i`, but for lead characters.
pub open spec fn leads_to(t: Seq<char>, i: int, j: int) -> bool {
    tag_opens(t, i) && i + 2 <= j <= t.len() && forall|k: int| i + 2 <= k < j ==> is_lead(t[k])
}

/// Position `j` is the first one behind the opening braces at `i`, but for lead characters, and
/// the one at `k` is `mark`.
pub open spec fn led_by(t: Seq<char>, i: int, k: int, j: int, mark: char) -> bool {
    leads_to(t, i, j) && i + 2 <= k < j && t[k] == mark
}

/// A brace opens at `j` that does not belong to the opening braces of a tag.
pub open spec fn lone_brace(t: Seq<char>, j: int) -> bool {
    0 <= j < t.len() && t[j] == '{' && (j == 0 || t[j - 1] != '{')
}

/// From `j` on, closing braces may stand in a tag without ending it.
pub open spec fn hides_end(t: Seq<char>, j: int) -> bool {
    0 <= j < t.len() && (t[j] == '"' || t[j] == '\'' || t[j] == '[' || lone_brace(t, j))
}

/// Position `j` is in the tag that opens at `i`, with nothing before it that hides the tag's end.
pub open spec fn in_open_tag(t: Seq<char>, i: int, j: int) -> bool {
    &&& tag_opens(t, i)
    &&& i + 2 <= j <= t.len()
    &&& forall|k: int| i + 2 <= k < j ==> !#[trigger] hides_end(t, k)
    &&& forall|k: int| i + 2 <= k < j - 1 ==> !#[trigger] tag_closes(t, k)
}

/// The end of the tag that opens at `i` is hidden from `m` on.
pub open spec fn end_hidden(t: Seq<char>, i: int, m: int) -> bool {
    in_open_tag(t, i, m) && hides_end(t, m)
}

/// Position `j` may be in a tag.
pub open spec fn in_tag(t: Seq<char>, j: int) -> bool {
    ||| exists|i: int| in_open_tag(t, i, j)
    ||| exists|i: int, m: int| #[trigger] end_hidden(t, i, m) && m < j
}

/// The word `else` stands at `j`.
pub open spec fn else_at(t: Seq<char>, j: int) -> bool {
    0 <= j && j + 3 < t.len() && t[j] == 'e' && t[j + 1] == 'l' && t[j + 2] == 's' && t[j + 3] == 'e'
}

/// White space.
pub open spec fn is_blank(c: char) -> bool {
    c == ' ' || c == '\t' || c == '\n' || c == '\r'
}

/// The end of a tag, or the tilde before it, stands at `m`, and only white space from `j` to it.
pub open spec fn tag_ends_at(t: Seq<char>, j: int, m: int) -> bool {
    &&& 0 <= j <= m < t.len()
    &&& t[m] == '~' || t[m] == '}'
    &&& forall|k: int| j <= k < m ==> is_blank(#[trigger] t[k])
}

/// Nothing but white space stands between `j` and the end of a tag.
pub open spec fn tag_ends(t: Seq<char>, j: int) -> bool {
    exists|m: int| tag_ends_at(t, j, m)
}

/// A branch of a block stands at `j` that has a condition of its own.
pub open spec fn chained_branch(t: Seq<char>, j: int) -> bool {
    (0 <= j < t.len() && t[j] == '^' && !tag_ends(t, j + 1)) || (else_at(t, j) && !tag_ends(
        t,
        j + 4,
    ))
}

/// A block may have begun before `j`.
pub open spec fn block_before(t: Seq<char>, j: int) -> bool {
    exists|k: int| 0 <= k < j && k < t.len() && #[trigger] t[k] == '#'
}

/// What may nest begins at `j`: an argument in brackets, a block or one of its branches.
pub open spec fn nests(t: Seq<char>, j: int) -> bool {
    0 <= j < t.len() && (t[j] == '(' || t[j] == '[' || t[j] == '#' || t[j] == '^' || lone_brace(
        t,
        j,
    ) || else_at(t, j))
}

/// In how many of the first `n` places something nests in a tag.
pub open spec fn nestings(t: Seq<char>, n: int) -> nat
    decreases n,
{
    if n <= 0 {
        0
    } else if in_tag(t, n - 1) && nests(t, n - 1) {
        nestings(t, n - 1) + 1
    } else {
        nestings(t, n - 1)
    }
}

/// The template holds no decorator and no block of a partial, no branch with a condition of its
/// own behind a tilde, and nests in few places.
pub open spec fn plain_template(t: Seq<char>) -> bool {
    &&& forall|i: int, j: int| #[trigger] leads_to(t, i, j) && j < t.len() ==> t[j] != '*'
    &&& forall|i: int, k: int, j: int| #[trigger]
        led_by(t, i, k, j, '#') && j < t.len() ==> t[j] != '>'
    &&& forall|i: int, k: int, j: int| #[trigger]
        led_by(t, i, k, j, '~') && block_before(t, j) ==> !chained_branch(t, j)
    &&& nestings(t, t.len() as int) <= 32
}

/// What `Handlebars::render_template` makes of a plain template: the text, or `None` on an error.
pub uninterp spec fn rendered(template: Seq<char>, data: Value) -> Option<Seq<char>>;

/// `Handlebars::render_template` with a registry that holds the built-in helpers only. Left out
/// are templates with decorators or blocks of partials, on which it may not return, those with a
/// conditional branch behind a tilde, on which it panics, and those that nest in many places, over
/// which it recurses. The contract names the text, `None` for a template error.
#[verifier::external_body]
fn render(template: &str, data: &Value) -> (r: Option<String>)
    requires
        plain_template(template@),
    ensures
        opt_view(r) == rendered(template@, *data),
{
    Handlebars::new().render_template(template, data).ok()
}

/// The rendering that the caller supplied for a template.
pub open spec fn supplied_rendering(supplied: Seq<Rendering>, t: Seq<char>) -> Option<
    Option<Seq<char>>,
>
    decreases supplied.len(),
{
    if supplied.len() == 0 {
        None
    } else if supplied[0].template@ == t {
        Some(opt_view(supplied[0].text))
    } else {
        supplied_rendering(supplied.drop_first(), t)
    }
}

/// How a template is rendered: `None` where that is left to the caller, who has not done it.
pub open spec fn rendering(t: Seq<char>, data: Value, supplied: Seq<Rendering>) -> Option<
    Option<Seq<char>>,
> {
    if plain_template(t) {
        Some(rendered(t, data))
    } else {
        supplied_rendering(supplied, t)
    }
}

/// A template filled in: its rendering, or its own text where it cannot be rendered.
pub open spec fn filled(t: Seq<char>, data: Value, supplied: Seq<Rendering>) -> Option<Seq<char>> {
    match rendering(t, data, supplied) {
        None => None,
        Some(None) => Some(t),
        Some(Some(text)) => Some(text),
    }
}

proof fn lemma_nestings_grow(t: Seq<char>, n: int, m: int)
    requires
        n <= m,
    ensures
        nestings(t, n) <= nestings(t, m),
    decreases m - n,
{
    if n < m {
        lemma_nestings_grow(t, n, m - 1);
    }
}

/// What the scan of a template has seen, moved on by one place.
proof fn lemma_scan_step(t: Seq<char>, j: int, n: int)
    requires
        0 <= j < t.len(),
        n == j + 1,
    ensures
        ({
            let doubled = t[j] == '{' && j > 0 && t[j - 1] == '{';
            let closed = t[j] == '}' && j > 0 && t[j - 1] == '}';
            let leading = exists|i: int| leads_to(t, i, j);
            let open = exists|i: int| in_open_tag(t, i, j);
            let hidden = exists|i: int, m: int| #[trigger] end_hidden(t, i, m) && m < j;
            &&& (exists|i: int| leads_to(t, i, n)) == ((leading && is_lead(t[j])) || doubled)
            &&& (exists|i: int| in_open_tag(t, i, n)) == ((open && !hides_end(t, j)
                && !closed) || doubled)
            &&& (exists|i: int, m: int| #[trigger] end_hidden(t, i, m) && m < n) == (hidden
                || (open && hides_end(t, j)))
        }),
{
    let doubled = t[j] == '{' && j > 0 && t[j - 1] == '{';
    let closed = t[j] == '}' && j > 0 && t[j - 1] == '}';
    if doubled {
        assert(leads_to(t, j - 1, n));
        assert(in_open_tag(t, j - 1, n));
    }
    if exists|i: int| leads_to(t, i, j) && is_lead(t[j]) {
        let i = choose|i: int| leads_to(t, i, j) && is_lead(t[j]);
        assert(leads_to(t, i, n));
    }
    if exists|i: int| leads_to(t, i, n) {
        let i = choose|i: int| leads_to(t, i, n);
        if i + 2 < n {
            assert(is_lead(t[j]));
            assert(leads_to(t, i, j));
        }
    }
    if (exists|i: int| in_open_tag(t, i, j)) && !hides_end(t, j) && !closed {
        let i = choose|i: int| in_open_tag(t, i, j);
        assert forall|k: int| i + 2 <= k < j implies !#[trigger] tag_closes(t, k) by {
            if k == j - 1 && tag_closes(t, k) {
                assert(closed);
            }
        }
        assert(in_open_tag(t, i, n));
    }
    if exists|i: int| in_open_tag(t, i, n) {
        let i = choose|i: int| in_open_tag(t, i, n);
        if i + 2 < n {
            assert(in_open_tag(t, i, j));
            assert(!hides_end(t, j));
            if closed {
                assert(t[i + 1] == '{');
                assert(tag_closes(t, j - 1));
            }
        }
    }
    if (exists|i: int| in_open_tag(t, i, j)) && hides_end(t, j) {
        let i = choose|i: int| in_open_tag(t, i, j);
        assert(end_hidden(t, i, j));
    }
    if exists|i: int, m: int| #[trigger] end_hidden(t, i, m) && m < n {
        let (i, m) = choose|i: int, m: int| #[trigger] end_hidden(t, i, m) && m < n;
        if m == j {
            assert(in_open_tag(t, i, j));
        }
    }
}

/// What the scan of a template has seen of a lead character, moved on by one place.
proof fn lemma_led_step(t: Seq<char>, j: int, n: int, mark: char)
    requires
        0 <= j < t.len(),
        n == j + 1,
        is_lead(mark),
    ensures
        (exists|i: int, k: int| led_by(t, i, k, n, mark)) == (((exists|i: int| leads_to(t, i, j))
            && t[j] == mark) || ((exists|i: int, k: int| led_by(t, i, k, j, mark)) && is_lead(
            t[j],
        ))),
{
    if exists|i: int| leads_to(t, i, j) && t[j] == mark {
        let i = choose|i: int| leads_to(t, i, j) && t[j] == mark;
        assert(led_by(t, i, j, n, mark));
    }
    if exists|i: int, k: int| led_by(t, i, k, j, mark) && is_lead(t[j]) {
        let (i, k) = choose|i: int, k: int| led_by(t, i, k, j, mark) && is_lead(t[j]);
        assert(led_by(t, i, k, n, mark));
    }
    if exists|i: int, k: int| led_by(t, i, k, n, mark) {
        let (i, k) = choose|i: int, k: int| led_by(t, i, k, n, mark);
        assert(is_lead(t[j]));
        assert(leads_to(t, i, j));
        if k < j {
            assert(led_by(t, i, k, j, mark));
        }
    }
}

proof fn lemma_block_step(t: Seq<char>, j: int, n: int)
    requires
        0 <= j < t.len(),
        n == j + 1,
    ensures
        block_before(t, n) == (block_before(t, j) || t[j] == '#'),
{
    if block_before(t, j) {
        let k = choose|k: int| 0 <= k < j && k < t.len() && #[trigger] t[k] == '#';
        assert(t[k] == '#' && k < n);
    }
}

/// Tells whether nothing but white space stands between `j` and the end of a tag.
fn ends_tag(t: &Vec<char>, j: usize) -> (r: bool)
    requires
        j <= t.len(),
    ensures
        r == tag_ends(t@, j as int),
{
    let mut m: usize = j;
    while m < t.len()
        invariant
            j <= m <= t.len(),
            forall|k: int| j <= k < m ==> is_blank(#[trigger] t@[k]),
        decreases t.len() - m,
    {
        let c = t[m];
        if c == '~' || c == '}' {
            assert(tag_ends_at(t@, j as int, m as int));
            return true;
        }
        if !(c == ' ' || c == '\t' || c == '\n' || c == '\r') {
            assert forall|n: int| !tag_ends_at(t@, j as int, n) by {
                if tag_ends_at(t@, j as int, n) {
                    if n < m {
                        assert(is_blank(t@[n]));
                    } else if m < n {
                        assert(is_blank(t@[m as int]));
                    }
                }
            }
            return false;
        }
        m = m + 1;
    }
    assert forall|n: int| !tag_ends_at(t@, j as int, n) by {
        if tag_ends_at(t@, j as int, n) {
            assert(is_blank(t@[n]));
        }
    }
    false
}

/// Tells whether a template can be rendered here.
pub fn is_plain_template(template: &str) -> (r: bool)
    ensures
        r == plain_template(template@),
{
    let t = chars_of(template);
    let ghost tv = template@;
    let mut leading: bool = false;
    let mut tilded: bool = false;
    let mut hashed: bool = false;
    let mut blocks: bool = false;
    let mut open: bool = false;
    let mut hidden: bool = false;
    let mut count: usize = 0;
    let mut j: usize = 0;
    while j < t.len()
        invariant
            t@ == tv,
            tv == template@,
            0 <= j <= t.len(),
            leading == exists|i: int| leads_to(tv, i, j as int),
            tilded == exists|i: int, k: int| led_by(tv, i, k, j as int, '~'),
            hashed == exists|i: int, k: int| led_by(tv, i, k, j as int, '#'),
            blocks == block_before(tv, j as int),
            open == exists|i: int| in_open_tag(tv, i, j as int),
            hidden == exists|i: int, m: int| #[trigger] end_hidden(tv, i, m) && m < j,
            count == nestings(tv, j as int),
            count <= 32,
            forall|i: int, k: int| #[trigger] leads_to(tv, i, k) && k < j ==> tv[k] != '*',
            forall|i: int, m: int, k: int| #[trigger]
                led_by(tv, i, m, k, '#') && k < j ==> tv[k] != '>',
            forall|i: int, m: int, k: int| #[trigger]
                led_by(tv, i, m, k, '~') && k < j && block_before(tv, k) ==> !chained_branch(tv, k),
        decreases t.len() - j,
    {
        let c = t[j];
        if leading && c == '*' {
            assert(!plain_template(tv)) by {
                let i = choose|i: int| leads_to(tv, i, j as int);
                assert(leads_to(tv, i, j as int));
            }
            return false;
        }
        if hashed && c == '>' {
            assert(!plain_template(tv)) by {
                let (i, k) = choose|i: int, k: int| led_by(tv, i, k, j as int, '#');
                assert(led_by(tv, i, k, j as int, '#'));
            }
            return false;
        }
        let doubled = c == '{' && j > 0 && t[j - 1] == '{';
        let closed = c == '}' && j > 0 && t[j - 1] == '}';
        let lone = c == '{' && !doubled;
        let lead = c == ' ' || c == '\t' || c == '\n' || c == '\r' || c == '~' || c == '{' || c
            == '#';
        let hides = c == '"' || c == '\'' || c == '[' || lone;
        let branch = c == 'e' && t.len() - j > 3 && t[j + 1] == 'l' && t[j + 2] == 's' && t[j + 3]
            == 'e';
        if tilded && blocks && (c == '^' || branch) {
            let ends = if branch {
                ends_tag(&t, j + 4)
            } else {
                ends_tag(&t, j + 1)
            };
            if !ends {
                assert(!plain_template(tv)) by {
                    let (i, k) = choose|i: int, k: int| led_by(tv, i, k, j as int, '~');
                    assert(led_by(tv, i, k, j as int, '~') && chained_branch(tv, j as int));
                }
                return false;
            }
        }
        assert(tilded && blocks ==> !chained_branch(tv, j as int));
        if (open || hidden) && (c == '(' || c == '[' || c == '#' || c == '^' || lone || branch) {
            count = count + 1;
        }
        assert(count == nestings(tv, j + 1));
        if count > 32 {
            proof {
                lemma_nestings_grow(tv, j + 1, tv.len() as int);
            }
            return false;
        }
        proof {
            lemma_scan_step(tv, j as int, j + 1);
            lemma_led_step(tv, j as int, j + 1, '~');
            lemma_led_step(tv, j as int, j + 1, '#');
            lemma_block_step(tv, j as int, j + 1);
            assert forall|i: int, k: int| #[trigger]
                leads_to(tv, i, k) && k < j + 1 implies tv[k] != '*' by {
                if k == j {
                    assert(leading);
                }
            }
            assert forall|i: int, m: int, k: int| #[trigger]
                led_by(tv, i, m, k, '#') && k < j + 1 implies tv[k] != '>' by {
                if k == j {
                    assert(hashed);
                }
            }
            assert forall|i: int, m: int, k: int| #[trigger]
                led_by(tv, i, m, k, '~') && k < j + 1 && block_before(
                tv,
                k,
            ) implies !chained_branch(tv, k) by {
                if k == j {
                    assert(tilded);
                }
            }
        }
        hidden = hidden || (open && hides);
        tilded = (leading && c == '~') || (tilded && lead);
        hashed = (leading && c == '#') || (hashed && lead);
        blocks = blocks || c == '#';
        leading = (leading && lead) || doubled;
        open = (open && !hides && !closed) || doubled;
        j = j + 1;
    }
    assert forall|i: int, m: int, k: int| #[trigger]
        led_by(tv, i, m, k, '~') && block_before(tv, k) implies !chained_branch(tv, k) by {
        assert(k <= tv.len());
    }
    true
}

/// Renders a template from the members of `data`: `Some(None)` where it cannot be rendered, and
/// `None` where the rendering is the caller's and is not among those supplied.
pub fn render_with(template: &str, data: &Value, supplied: &Vec<Rendering>) -> (r: Option<
    Option<String>,
>)
    ensures
        match r {
            None => rendering(template@, *data, supplied@) is None,
            Some(text) => rendering(template@, *data, supplied@) == Some(opt_view(text)),
        },
{
    if is_plain_template(template) {
        return Some(render(template, data));
    }
    let mut i: usize = 0;
    assert(supplied@.skip(0) == supplied@);
    while i < supplied.len()
        invariant
            0 <= i <= supplied.len(),
            !plain_template(template@),
            supplied_rendering(supplied@, template@) == supplied_rendering(
                supplied@.skip(i as int),
                template@,
            ),
        decreases supplied.len() - i,
    {
        assert(supplied@.skip(i as int)[0] == supplied@[i as int]);
        assert(supplied@.skip(i as int).drop_first() == supplied@.skip(i + 1));
        if same_text(supplied[i].template.as_str(), template) {
            return Some(opt_clone(&supplied[i].text));
        }
        i = i + 1;
    }
    None
}

/// Fills a template in from the members of `data`. A template that cannot be rendered stays as
/// it is. `None` where the rendering is the caller's and is not among those supplied.
pub fn fill(template: &str, data: &Value, supplied: &Vec<Rendering>) -> (r: Option<String>)
    ensures
        opt_view(r) == filled(template@, *data, supplied@),
{
    match render_with(template, data, supplied) {
        None => None,
        Some(None) => Some(template.to_owned()),
        Some(Some(text)) => Some(text),
    }
}

/// A text as it is, or filled in where `render` asks for that.
pub open spec fn filled_if(
    render: bool,
    t: Seq<char>,
    data: Value,
    supplied: Seq<Rendering>,
) -> Option<Seq<char>> {
    if render {
        filled(t, data, supplied)
    } else {
        Some(t)
    }
}

/// Fills a text in where `render` asks for that.
pub fn fill_if(render: bool, template: &str, data: &Value, supplied: &Vec<Rendering>) -> (r: Option<
    String,
>)
    ensures
        opt_view(r) == filled_if(render, template@, *data, supplied@),
{
    if render {
        fill(template, data, supplied)
    } else {
        Some(template.to_owned())
    }
}

proof fn lemma_braceless_nests_nowhere(t: Seq<char>, n: int)
    requires
        forall|i: int| 0 <= i < t.len() ==> t[i] != '{',
    ensures
        nestings(t, n) == 0,
    decreases n,
{
    if n > 0 {
        lemma_braceless_nests_nowhere(t, n - 1);
    }
}

/// A text without an opening brace is a plain template.
pub proof fn law_braceless_is_plain(t: Seq<char>)
    requires
        forall|i: int| 0 <= i < t.len() ==> t[i] != '{',
    ensures
        plain_template(t),
{
    lemma_braceless_nests_nowhere(t, t.len() as int);
}

/// How many of the first `n` places of a text hold what may begin something nested: a bracket, a
/// brace, a block mark or the word `else`.
pub open spec fn openings(t: Seq<char>, n: int) -> nat
    decreases n,
{
    if n <= 0 {
        0
    } else {
        let j = n - 1;
        let c = t[j];
        let word = j + 3 < t.len() && c == 'e' && t[j + 1] == 'l' && t[j + 2] == 's' && t[j + 3]
            == 'e';
        openings(t, j) + (if c == '(' || c == '[' || c == '{' || c == '#' || c == '^' || word {
            1nat
        } else {
            0
        })
    }
}

proof fn lemma_nestings_are_openings(t: Seq<char>, n: int)
    requires
        n <= t.len(),
    ensures
        nestings(t, n) <= openings(t, n),
    decreases n,
{
    if n > 0 {
        lemma_nestings_are_openings(t, n - 1);
    }
}

/// A template is rendered here, however long it is, where no star and no angle bracket stands right
/// behind a brace, a blank, a tilde or a block mark, no tildes stand beside block marks, and
/// something nested begins in up to 32 places.
pub proof fn law_ordinary_templates_are_plain(t: Seq<char>)
    requires
        forall|j: int|
            0 < j < t.len() && (#[trigger] t[j] == '*' || t[j] == '>') ==> t[j - 1] != '{' && t[j
                - 1] != ' ' && t[j - 1] != '\t' && t[j - 1] != '\n' && t[j - 1] != '\r' && t[j - 1]
                != '~' && t[j - 1] != '#',
        (forall|j: int| 0 <= j < t.len() ==> t[j] != '~') || (forall|j: int|
            0 <= j < t.len() ==> t[j] != '#'),
        openings(t, t.len() as int) <= 32,
    ensures
        plain_template(t),
{
    lemma_nestings_are_openings(t, t.len() as int);
    assert forall|i: int, j: int| #[trigger] leads_to(t, i, j) && j < t.len() implies t[j] != '*'
        && t[j] != '>' by {
        if j > i + 2 {
            assert(is_lead(t[j - 1]));
        } else {
            assert(t[j - 1] == '{');
        }
    }
}

/// A decorator, or a block that is a decorator or a partial, is left to the caller wherever it
/// stands.
pub proof fn law_decorators_are_not_plain(t: Seq<char>, i: int)
    requires
        0 <= i,
        i + 3 < t.len(),
        t[i] == '{' && t[i + 1] == '{',
        t[i + 2] == '*' || (t[i + 2] == '#' && (t[i + 3] == '*' || t[i + 3] == '>')),
    ensures
        !plain_template(t),
{
    assert(leads_to(t, i, i + 2));
    if t[i + 2] == '#' {
        assert(leads_to(t, i, i + 3));
        assert(led_by(t, i, i + 2, i + 3, '#'));
    }
}

proof fn lemma_brackets_nest(t: Seq<char>, i: int, n: int)
    requires
        0 <= i,
        0 <= n,
        i + 2 + n <= t.len(),
        t[i] == '{' && t[i + 1] == '{',
        forall|k: int| i + 2 <= k < i + 2 + n ==> t[k] == '(',
    ensures
        nestings(t, i + 2 + n) >= n,
    decreases n,
{
    if n > 0 {
        lemma_brackets_nest(t, i, n - 1);
        assert(in_open_tag(t, i, i + 2 + n - 1));
        assert(nests(t, i + 2 + n - 1));
    }
}

/// A tag that opens more than 32 brackets is left to the caller.
pub proof fn law_deep_brackets_are_not_plain(t: Seq<char>, i: int, n: int)
    requires
        0 <= i,
        n > 32,
        i + 2 + n <= t.len(),
        t[i] == '{' && t[i + 1] == '{',
        forall|k: int| i + 2 <= k < i + 2 + n ==> t[k] == '(',
    ensures
        !plain_template(t),
{
    lemma_brackets_nest(t, i, n);
    lemma_nestings_grow(t, i + 2 + n, t.len() as int);
}

/// A branch of a block with a condition of its own, right behind the tilde of its tag, is left to
/// the caller.
pub proof fn law_tilded_conditions_are_not_plain(t: Seq<char>, block: int, i: int)
    requires
        0 <= block < i,
        i + 8 < t.len(),
        t[block] == '#',
        t[i] == '{' && t[i + 1] == '{' && t[i + 2] == '~',
        t[i + 3] == 'e' && t[i + 4] == 'l' && t[i + 5] == 's' && t[i + 6] == 'e',
        t[i + 7] == ' ' || t[i + 7] == '\t' || t[i + 7] == '\n' || t[i + 7] == '\r',
        t[i + 8] != ' ' && t[i + 8] != '\t' && t[i + 8] != '\n' && t[i + 8] != '\r',
        t[i + 8] != '~' && t[i + 8] != '}',
    ensures
        !plain_template(t),
{
    assert(leads_to(t, i, i + 3));
    assert(led_by(t, i, i + 2, i + 3, '~'));
    assert(block_before(t, i + 3));
    let k = i + 7;
    assert(!tag_ends(t, k)) by {
        assert forall|m: int| !#[trigger] tag_ends_at(t, k, m) by {
            if tag_ends_at(t, k, m) {
                assert(m > i + 8);
                assert(is_blank(t[i + 8]));
            }
        }
    }
    assert(chained_branch(t, i + 3));
}

} // verus!
