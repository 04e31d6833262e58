//! Tokens: runs of ASCII letters, digits and `_`, folded to lower case,
//! longer than one character.

use vstd::prelude::*;

use crate::text::{chars_of, push_char, views};

verus! {

/// A character that can be part of a token.
pub open spec fn is_token_char(c: char) -> bool {
    ||| ('a' <= c && c <= 'z')
    ||| ('A' <= c && c <= 'Z')
    ||| ('0' <= c && c <= '9')
    ||| c == '_'
}

/// ASCII upper-case letters folded to lower case; every other character unchanged.
pub open spec fn ascii_lower(c: char) -> char {
    if 'A' <= c && c <= 'Z' {
        ((c as u32) + 32) as char
    } else {
        c
    }
}

/// The run collected so far, as a token when it is longer than one character.
pub open spec fn finish_run(run: Seq<char>) -> Seq<Seq<char>> {
    if run.len() > 1 {
        seq![run]
    } else {
        seq![]
    }
}

/// The tokens of `s`, given the (lower-cased) run `run` that stands just before it.
pub open spec fn tokens_after(s: Seq<char>, run: Seq<char>) -> Seq<Seq<char>>
    decreases s.len(),
{
    if s.len() == 0 {
        finish_run(run)
    } else if is_token_char(s[0]) {
        tokens_after(s.drop_first(), run.push(ascii_lower(s[0])))
    } else {
        finish_run(run) + tokens_after(s.drop_first(), seq![])
    }
}

/// The tokens of `s`, in order, repeats kept.
pub open spec fn tokens_of(s: Seq<char>) -> Seq<Seq<char>> {
    tokens_after(s, seq![])
}

/// The distinct items of `s`, each at its first occurrence.
pub open spec fn first_occurrences(s: Seq<Seq<char>>) -> Seq<Seq<char>>
    decreases s.len(),
{
    if s.len() == 0 {
        seq![]
    } else {
        let rest = first_occurrences(s.drop_last());
        if rest.contains(s.last()) {
            rest
        } else {
            rest.push(s.last())
        }
    }
}

/// A character a token can hold: a token character that is not an
/// upper-case ASCII letter.
pub open spec fn is_folded_token_char(c: char) -> bool {
    is_token_char(c) && !('A' <= c && c <= 'Z')
}

/// Every character of `t` is a [`is_folded_token_char`].
pub open spec fn is_folded_run(t: Seq<char>) -> bool {
    forall|j: int| 0 <= j < t.len() ==> is_folded_token_char(#[trigger] t[j])
}

/// Each item of `s` is a token: token characters, lower case, longer than one.
pub open spec fn all_tokens_wellformed(s: Seq<Seq<char>>) -> bool {
    forall|i: int| 0 <= i < s.len() ==> #[trigger] s[i].len() > 1 && is_folded_run(s[i])
}

/// A folded token character stays as it is, and an upper-case letter becomes
/// a lower-case one.
proof fn lemma_ascii_lower_folds(c: char)
    requires
        is_token_char(c),
    ensures
        is_folded_token_char(ascii_lower(c)),
{
    if 'A' <= c && c <= 'Z' {
        let x: u32 = ((c as u32) + 32) as u32;
        assert(97 <= x <= 122);
        assert(ascii_lower(c) == x as char);
        assert((x as char) as u32 == x);
    }
}

proof fn lemma_tokens_after_wellformed(s: Seq<char>, run: Seq<char>)
    requires
        is_folded_run(run),
    ensures
        all_tokens_wellformed(tokens_after(s, run)),
    decreases s.len(),
{
    if s.len() == 0 {
    } else if is_token_char(s[0]) {
        lemma_ascii_lower_folds(s[0]);
        let next = run.push(ascii_lower(s[0]));
        assert(is_folded_run(next)) by {
            assert forall|j: int| 0 <= j < next.len() implies is_folded_token_char(#[trigger] next[j]) by {
                if j < run.len() {
                    assert(next[j] == run[j]);
                }
            }
        }
        lemma_tokens_after_wellformed(s.drop_first(), next);
    } else {
        lemma_tokens_after_wellformed(s.drop_first(), seq![]);
        let a = finish_run(run);
        let b = tokens_after(s.drop_first(), seq![]);
        assert forall|i: int| 0 <= i < (a + b).len() implies #[trigger] (a + b)[i].len() > 1 && is_folded_run(
            (a + b)[i],
        ) by {
            if i < a.len() {
                assert((a + b)[i] == a[i]);
            } else {
                assert((a + b)[i] == b[i - a.len()]);
            }
        }
    }
}

/// Text joined at a character that is no token character splits its tokens:
/// the tokens of `x + y` are those of `x`, then those of `y` after that
/// character.
pub proof fn lemma_tokens_split(x: Seq<char>, y: Seq<char>, run: Seq<char>)
    requires
        y.len() > 0,
        !is_token_char(y[0]),
    ensures
        tokens_after(x + y, run) == tokens_after(x, run) + tokens_after(y.drop_first(), seq![]),
    decreases x.len(),
{
    if x.len() == 0 {
        assert(x + y =~= y);
        assert(tokens_after(x, run) == finish_run(run));
    } else {
        assert((x + y)[0] == x[0]);
        assert((x + y).drop_first() =~= x.drop_first() + y);
        if is_token_char(x[0]) {
            lemma_tokens_split(x.drop_first(), y, run.push(ascii_lower(x[0])));
        } else {
            lemma_tokens_split(x.drop_first(), y, seq![]);
            assert(finish_run(run) + (tokens_after(x.drop_first(), seq![]) + tokens_after(y.drop_first(), seq![]))
                =~= (finish_run(run) + tokens_after(x.drop_first(), seq![])) + tokens_after(y.drop_first(), seq![]));
        }
    }
}

/// Every token is a run of ASCII letters, digits and `_`, in lower case,
/// longer than one character.
pub proof fn lemma_tokens_wellformed(s: Seq<char>)
    ensures
        all_tokens_wellformed(tokens_of(s)),
{
    lemma_tokens_after_wellformed(s, seq![]);
}

pub fn is_token_char_exec(c: char) -> (res: bool)
    ensures
        res == is_token_char(c),
{
    ('a' <= c && c <= 'z') || ('A' <= c && c <= 'Z') || ('0' <= c && c <= '9') || c == '_'
}

pub fn ascii_lower_exec(c: char) -> (res: char)
    ensures
        res == ascii_lower(c),
{
    if 'A' <= c && c <= 'Z' {
        let code: u32 = c as u32;
        let lowered: u8 = (code + 32) as u8;
        assert(lowered == (c as u32) + 32);
        lowered as char
    } else {
        c
    }
}

proof fn lemma_tokens_step(s: Seq<char>, i: int, run: Seq<char>)
    requires
        0 <= i < s.len(),
    ensures
        tokens_after(s.skip(i), run) == if is_token_char(s[i]) {
            tokens_after(s.skip(i + 1), run.push(ascii_lower(s[i])))
        } else {
            finish_run(run) + tokens_after(s.skip(i + 1), seq![])
        },
{
    assert(s.skip(i).drop_first() == s.skip(i + 1));
    assert(s.skip(i)[0] == s[i]);
}

/// Splits `text` into tokens, in order, repeats kept.
pub fn tokenize(text: &str) -> (res: Vec<String>)
    ensures
        views(res@) == tokens_of(text@),
{
    let chars = chars_of(text);
    let n: usize = chars.len();
    let mut res: Vec<String> = Vec::new();
    let mut run = String::new();
    let mut run_len: usize = 0;
    let mut i: usize = 0;
    assert(chars@.skip(0) == chars@);
    while i < n
        invariant
            n == chars@.len(),
            chars@ == text@,
            0 <= i <= n,
            run_len == run@.len(),
            run_len <= i,
            views(res@) + tokens_after(chars@.skip(i as int), run@) == tokens_of(text@),
        decreases n - i,
    {
        proof {
            lemma_tokens_step(chars@, i as int, run@);
        }
        let c = chars[i];
        if is_token_char_exec(c) {
            push_char(&mut run, ascii_lower_exec(c));
            run_len += 1;
        } else {
            let ghost before = views(res@);
            let ghost run_v = run@;
            if run_len > 1 {
                res.push(run);
                assert(views(res@) == before + finish_run(run_v));
            } else {
                assert(before + finish_run(run_v) == before);
            }
            run = String::new();
            run_len = 0;
            proof {
                assert(before + (finish_run(run_v) + tokens_after(chars@.skip(i + 1), seq![])) == (
                before + finish_run(run_v)) + tokens_after(chars@.skip(i + 1), seq![]));
            }
        }
        i += 1;
    }
    assert(chars@.skip(n as int).len() == 0);
    let ghost before = views(res@);
    if run_len > 1 {
        res.push(run);
        assert(views(res@) == before + finish_run(run@));
    } else {
        assert(before + finish_run(run@) == before);
    }
    res
}

/// Whether `item` occurs in `items`.
pub fn contains_string(items: &Vec<String>, item: &String) -> (res: bool)
    ensures
        res == views(items@).contains(item@),
{
    let mut i: usize = 0;
    while i < items.len()
        invariant
            0 <= i <= items@.len(),
            forall|k: int| 0 <= k < i ==> items@[k]@ != item@,
        decreases items@.len() - i,
    {
        if items[i] == *item {
            assert(views(items@)[i as int] == item@);
            return true;
        }
        i += 1;
    }
    assert forall|k: int| 0 <= k < views(items@).len() implies views(items@)[k] != item@ by {
        assert(views(items@)[k] == items@[k]@);
    }
    false
}

pub proof fn lemma_first_occurrences(s: Seq<Seq<char>>)
    ensures
        forall|x: Seq<char>| first_occurrences(s).contains(x) <==> s.contains(x),
        first_occurrences(s).no_duplicates(),
    decreases s.len(),
{
    if s.len() > 0 {
        lemma_first_occurrences(s.drop_last());
        let rest = first_occurrences(s.drop_last());
        assert forall|x: Seq<char>| first_occurrences(s).contains(x) <==> s.contains(x) by {
            if s.contains(x) && !s.drop_last().contains(x) {
                let k = choose|k: int| 0 <= k < s.len() && s[k] == x;
                if k < s.len() - 1 {
                    assert(s.drop_last()[k] == x);
                }
                assert(x == s.last());
            }
            if s.drop_last().contains(x) {
                let k = choose|k: int| 0 <= k < s.drop_last().len() && s.drop_last()[k] == x;
                assert(s[k] == x);
            }
            if !rest.contains(s.last()) {
                if rest.push(s.last()).contains(x) {
                    let k = choose|k: int| 0 <= k < rest.push(s.last()).len() && rest.push(s.last())[k] == x;
                    if k < rest.len() {
                        assert(rest[k] == x);
                    }
                }
                if rest.contains(x) {
                    let k = choose|k: int| 0 <= k < rest.len() && rest[k] == x;
                    assert(rest.push(s.last())[k] == x);
                }
                assert(rest.push(s.last())[rest.len() as int] == s.last());
            }
            assert(s[s.len() - 1] == s.last());
        }
    }
}

/// The distinct tokens of `tokens`, each at its first occurrence.
pub fn unique_terms(tokens: &Vec<String>) -> (res: Vec<String>)
    ensures
        views(res@) == first_occurrences(views(tokens@)),
        views(res@).no_duplicates(),
        forall|x: Seq<char>| views(res@).contains(x) <==> views(tokens@).contains(x),
{
    let mut res: Vec<String> = Vec::new();
    let mut i: usize = 0;
    while i < tokens.len()
        invariant
            0 <= i <= tokens@.len(),
            views(res@) == first_occurrences(views(tokens@.take(i as int))),
        decreases tokens@.len() - i,
    {
        let ghost prefix = views(tokens@.take(i as int));
        let ghost next = views(tokens@.take(i + 1));
        assert(next.drop_last() == prefix);
        assert(next.last() == tokens@[i as int]@);
        if !contains_string(&res, &tokens[i]) {
            let ghost before = views(res@);
            res.push(tokens[i].clone());
            assert(views(res@) == before.push(tokens@[i as int]@));
        }
        i += 1;
    }
    assert(tokens@.take(tokens@.len() as int) == tokens@);
    proof {
        lemma_first_occurrences(views(tokens@));
    }
    res
}

} // verus!
