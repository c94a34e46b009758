//! The script that a worker runs: the template with the payload of one
//! batch in the place of its placeholder.

use vstd::prelude::*;
use vstd::string::{StrSliceExecFns, StringExecFns};

verus! {

/// The token that stands for the payload in a template: `{json}`.
pub open spec fn placeholder() -> Seq<char> {
    seq!['{', 'j', 's', 'o', 'n', '}']
}

/// `template` with `payload` in the place of each occurrence of `token`,
/// found from left to right, an occurrence starting only where the one before
/// it has ended. What is put in is not searched again.
pub open spec fn substituted(template: Seq<char>, token: Seq<char>, payload: Seq<char>) -> Seq<
    char,
>
    decreases template.len(),
{
    if token.len() == 0 || template.len() < token.len() {
        template
    } else if template.subrange(0, token.len() as int) == token {
        payload + substituted(template.skip(token.len() as int), token, payload)
    } else {
        seq![template[0]] + substituted(template.skip(1), token, payload)
    }
}

/// `token` stands in `text` at `at`.
pub open spec fn occurs_at(text: Seq<char>, token: Seq<char>, at: int) -> bool {
    0 <= at && at + token.len() <= text.len() && text.subrange(at, at + token.len()) == token
}

/// A text that does not hold the token comes out as it is.
pub proof fn lemma_no_occurrence(template: Seq<char>, token: Seq<char>, payload: Seq<char>)
    requires
        forall|at: int| !occurs_at(template, token, at),
    ensures
        substituted(template, token, payload) == template,
    decreases template.len(),
{
    if token.len() > 0 && template.len() >= token.len() {
        let rest = template.skip(1);
        assert(!occurs_at(template, token, 0));
        assert forall|at: int| !occurs_at(rest, token, at) by {
            if occurs_at(rest, token, at) {
                assert(rest.subrange(at, at + token.len()) =~= template.subrange(
                    at + 1,
                    at + 1 + token.len(),
                ));
                assert(occurs_at(template, token, at + 1));
            }
        }
        lemma_no_occurrence(rest, token, payload);
    }
}

/// A template that holds the token once comes out with the payload in the
/// token's place, and nothing else changed.
pub proof fn lemma_one_occurrence(
    template: Seq<char>,
    token: Seq<char>,
    payload: Seq<char>,
    at: int,
)
    requires
        token.len() > 0,
        occurs_at(template, token, at),
        forall|other: int| other != at ==> !occurs_at(template, token, other),
    ensures
        substituted(template, token, payload) == template.take(at) + payload + template.skip(
            at + token.len(),
        ),
    decreases at,
{
    let width = token.len() as int;
    if at == 0 {
        let rest = template.skip(width);
        assert forall|other: int| !occurs_at(rest, token, other) by {
            if occurs_at(rest, token, other) {
                assert(rest.subrange(other, other + width) =~= template.subrange(
                    other + width,
                    other + width + width,
                ));
                assert(occurs_at(template, token, other + width));
            }
        }
        lemma_no_occurrence(rest, token, payload);
    } else {
        let rest = template.skip(1);
        assert(!occurs_at(template, token, 0));
        assert(rest.subrange(at - 1, at - 1 + width) =~= template.subrange(at, at + width));
        assert forall|other: int| other != at - 1 implies !occurs_at(rest, token, other) by {
            if occurs_at(rest, token, other) {
                assert(rest.subrange(other, other + width) =~= template.subrange(
                    other + 1,
                    other + 1 + width,
                ));
                assert(occurs_at(template, token, other + 1));
            }
        }
        lemma_one_occurrence(rest, token, payload, at - 1);
    }
}

/// The characters of a string, in order.
fn chars_of(text: &str) -> (chars: Vec<char>)
    ensures
        chars@ == text@,
{
    let mut chars: Vec<char> = Vec::new();
    for c in walk: text.chars()
        invariant
            walk.seq() == text@,
            chars@ == text@.take(walk.index()),
    {
        chars.push(c);
    }
    chars
}

/// The placeholder, character by character.
fn placeholder_chars() -> (token: Vec<char>)
    ensures
        token@ == placeholder(),
{
    let mut token: Vec<char> = Vec::new();
    token.push('{');
    token.push('j');
    token.push('s');
    token.push('o');
    token.push('n');
    token.push('}');
    token
}

/// Tells whether `token` stands in `text` at `at`.
fn stands_at(text: &Vec<char>, at: usize, token: &Vec<char>) -> (found: bool)
    requires
        at + token.len() <= text.len(),
    ensures
        found == (text@.subrange(at as int, at + token.len()) == token@),
{
    let mut i: usize = 0;
    while i < token.len()
        invariant
            i <= token.len(),
            at + token.len() <= text.len(),
            forall|j: int| 0 <= j < i ==> text[at + j] == token[j],
        decreases token.len() - i,
    {
        if text[at + i] != token[i] {
            return false;
        }
        i += 1;
    }
    assert(text@.subrange(at as int, at + token.len()) =~= token@);
    true
}

/// Fills a template in: the script with the payload in the place of the
/// placeholder `{json}`. A template is meant to hold the placeholder once;
/// where it holds it more often, each occurrence is replaced, and where it
/// holds none, the script is the template. An occurrence of the placeholder
/// inside the payload stays as it is.
pub fn render(template: &str, payload: &str) -> (script: String)
    ensures
        script@ == substituted(template@, placeholder(), payload@),
{
    let text = chars_of(template);
    let token = placeholder_chars();
    let width = token.len();
    let mut script = String::new();
    let mut copied: usize = 0;
    let mut at: usize = 0;
    assert(text@.skip(0) =~= text@);
    while text.len() - at >= width
        invariant
            copied <= at <= text.len(),
            text@ == template@,
            token@ == placeholder(),
            width == token.len(),
            script@ + text@.subrange(copied as int, at as int) + substituted(
                text@.skip(at as int),
                token@,
                payload@,
            ) == substituted(text@, token@, payload@),
        decreases text.len() - at,
    {
        let ghost rest = text@.skip(at as int);
        assert(rest.subrange(0, width as int) =~= text@.subrange(at as int, at + width));
        if stands_at(&text, at, &token) {
            script.append(template.substring_char(copied, at));
            script.append(payload);
            assert(rest.skip(width as int) =~= text@.skip(at + width));
            at += width;
            copied = at;
        } else {
            assert(rest.skip(1) =~= text@.skip(at + 1));
            at += 1;
        }
    }
    script.append(template.substring_char(copied, text.len()));
    script
}

} // verus!
