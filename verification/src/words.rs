//! Tokenizer and dictionary text handling.
//!
//! A token is a maximal run of non-whitespace characters.  Its normalized
//! form keeps only the alphabetic characters, lower-cased.  A text's word
//! set is the sequence of distinct normalized tokens in first-occurrence
//! order.

use vstd::prelude::*;
use vstd::string::StrSliceExecFns;

verus! {

/// Relies on `char::is_alphabetic`: whether a character has the Unicode
/// `Alphabetic` property.  The result depends on the character alone.
pub uninterp spec fn is_alpha(c: char) -> bool;

/// Relies on `char::to_lowercase`: the lowercase mapping of a character,
/// a sequence of characters that depends on the character alone.
pub uninterp spec fn lower_of(c: char) -> Seq<char>;

/// Relies on `char::is_alphabetic` for the Unicode `Alphabetic` property.
#[verifier::external_body]
fn char_is_alphabetic(c: char) -> (r: bool)
    ensures
        r == is_alpha(c),
{
    c.is_alphabetic()
}

/// Relies on `char::to_lowercase`: yields the lowercase mapping of the
/// character, which depends on the character alone.
#[verifier::external_body]
fn char_to_lowercase(c: char) -> (r: Vec<char>)
    ensures
        r@ == lower_of(c),
{
    c.to_lowercase().collect()
}

/// Relies on `String`'s `FromIterator<char>` impl: collecting characters
/// yields the string of exactly those characters.
#[verifier::external_body]
fn chars_to_string(cs: &Vec<char>) -> (r: String)
    ensures
        r@ == cs@,
{
    cs.iter().collect()
}

/// The views of a sequence of strings.
pub open spec fn views_of(ws: Seq<String>) -> Seq<Seq<char>> {
    ws.map_values(|w: String| w@)
}

/// The normalized form of a token: every non-alphabetic character removed,
/// each remaining character replaced by its lowercase mapping, in order.
pub open spec fn norm_word(s: Seq<char>) -> Seq<char>
    decreases s.len(),
{
    if s.len() == 0 {
        Seq::empty()
    } else {
        norm_word(s.drop_last()) + (if is_alpha(s.last()) {
            lower_of(s.last())
        } else {
            Seq::empty()
        })
    }
}

/// The characters of a string, in order.
fn string_chars(s: &String) -> (r: Vec<char>)
    ensures
        r@ == s@,
{
    let n = s.as_str().unicode_len();
    let mut cs: Vec<char> = Vec::new();
    for i in 0..n
        invariant
            n == s@.len(),
            cs@ == s@.take(i as int),
    {
        cs.push(s.as_str().get_char(i));
        proof {
            assert(s@.take(i + 1) =~= s@.take(i as int).push(s@[i as int]));
        }
    }
    proof {
        assert(s@.take(n as int) =~= s@);
    }
    cs
}

/// The normalized form of a token held as characters.
fn norm_chars(cs: &Vec<char>) -> (r: Vec<char>)
    ensures
        r@ == norm_word(cs@),
{
    let mut out: Vec<char> = Vec::new();
    let n = cs.len();
    for i in 0..n
        invariant
            n == cs@.len(),
            out@ == norm_word(cs@.take(i as int)),
    {
        proof {
            assert(cs@.take(i + 1).drop_last() =~= cs@.take(i as int));
        }
        let c = cs[i];
        if char_is_alphabetic(c) {
            let mut lc = char_to_lowercase(c);
            out.append(&mut lc);
        } else {
            proof {
                assert(out@ =~= norm_word(cs@.take(i + 1)));
            }
        }
    }
    proof {
        assert(cs@.take(n as int) =~= cs@);
    }
    out
}

/// Removes non-alphabetic characters and moves everything to lower case.
pub fn filter(input: &String) -> (r: String)
    ensures
        r@ == norm_word(input@),
{
    let cs = string_chars(input);
    filter_token(&cs)
}

/// ASCII whitespace: the characters at which tokens are delimited.
pub open spec fn is_ws(c: char) -> bool {
    c == ' ' || c == '\t' || c == '\n' || c == '\r' || c == '\u{000C}'
}

fn char_is_ws(c: char) -> (r: bool)
    ensures
        r == is_ws(c),
{
    c == ' ' || c == '\t' || c == '\n' || c == '\r' || c == '\u{000C}'
}

/// The whitespace-delimited tokens of a text: the maximal runs of
/// non-whitespace characters, in order.
pub open spec fn split_ws(s: Seq<char>) -> Seq<Seq<char>>
    decreases s.len(),
{
    if s.len() == 0 {
        Seq::empty()
    } else {
        let rest = split_ws(s.drop_last());
        let c = s.last();
        if is_ws(c) {
            rest
        } else if s.len() >= 2 && !is_ws(s[s.len() - 2]) {
            rest.update(rest.len() - 1, rest.last().push(c))
        } else {
            rest.push(seq![c])
        }
    }
}

/// First-occurrence deduplication: of equal elements only the first stays,
/// and the order of the survivors is kept.
pub open spec fn first_dedup(ws: Seq<Seq<char>>) -> Seq<Seq<char>>
    decreases ws.len(),
{
    if ws.len() == 0 {
        Seq::empty()
    } else {
        let d = first_dedup(ws.drop_last());
        if d.contains(ws.last()) {
            d
        } else {
            d.push(ws.last())
        }
    }
}

/// The normalized forms of a sequence of tokens.
pub open spec fn norm_all(ts: Seq<Seq<char>>) -> Seq<Seq<char>> {
    ts.map_values(|t: Seq<char>| norm_word(t))
}

/// The word set of a text: its tokens' normalized forms, deduplicated,
/// in first-occurrence order.
pub open spec fn unique_norm_words(s: Seq<char>) -> Seq<Seq<char>> {
    first_dedup(norm_all(split_ws(s)))
}

/// Whether one of the strings reads `w`.
fn contains_string(words: &Vec<String>, w: &String) -> (r: bool)
    ensures
        r == views_of(words@).contains(w@),
{
    let n = words.len();
    for i in 0..n
        invariant
            n == words@.len(),
            forall|k: int| 0 <= k < i ==> words@[k]@ != w@,
    {
        if words[i] == *w {
            proof {
                assert(views_of(words@)[i as int] == w@);
            }
            return true;
        }
    }
    proof {
        assert forall|k: int| 0 <= k < views_of(words@).len() implies views_of(words@)[k] != w@ by {
            assert(views_of(words@)[k] == words@[k]@);
        }
    }
    false
}

/// Appends `w` unless an equal string is already present.
fn push_unique(words: &mut Vec<String>, w: String)
    ensures
        views_of(final(words)@) == (if views_of(old(words)@).contains(w@) {
            views_of(old(words)@)
        } else {
            views_of(old(words)@).push(w@)
        }),
{
    if !contains_string(words, &w) {
        let ghost pre = words@;
        words.push(w);
        proof {
            assert(views_of(words@) =~= views_of(pre).push(words@.last()@));
        }
    }
}

/// Returns the unique words of a text, i.e. the normalized forms of its
/// whitespace-delimited tokens, in the order each form first appears.
pub fn get_unique_words_from_string(input: &String) -> (r: Vec<String>)
    ensures
        views_of(r@) == unique_norm_words(input@),
{
    let cs = string_chars(input);
    let n = cs.len();
    let mut words: Vec<String> = Vec::new();
    let mut cur: Vec<char> = Vec::new();
    let ghost mut toks: Seq<Seq<char>> = Seq::empty();
    for i in 0..n
        invariant
            cs@ == input@,
            n == cs@.len(),
            split_ws(cs@.take(i as int)) == toks + (if cur@.len() > 0 {
                seq![cur@]
            } else {
                Seq::<Seq<char>>::empty()
            }),
            (cur@.len() > 0) == (i > 0 && !is_ws(cs@[i - 1])),
            views_of(words@) == first_dedup(norm_all(toks)),
    {
        let ghost pretoks = toks;
        let ghost precur = cur@;
        proof {
            assert(cs@.take(i + 1).drop_last() =~= cs@.take(i as int));
        }
        let c = cs[i];
        if char_is_ws(c) {
            if cur.len() > 0 {
                let w = filter_token(&cur);
                push_unique(&mut words, w);
                proof {
                    toks = toks.push(cur@);
                    lemma_dedup_step(pretoks, cur@);
                }
                cur = Vec::new();
            }
            proof {
                assert(split_ws(cs@.take(i + 1)) == split_ws(cs@.take(i as int)));
                if precur.len() > 0 {
                    assert(pretoks + seq![precur] =~= toks);
                    assert(toks + Seq::<Seq<char>>::empty() =~= toks);
                } else {
                    assert(pretoks + Seq::<Seq<char>>::empty() =~= pretoks);
                }
            }
        } else {
            cur.push(c);
            proof {
                let t1 = cs@.take(i + 1);
                if precur.len() > 0 {
                    assert(pretoks + seq![precur] =~= pretoks.push(precur));
                    assert(split_ws(t1) == split_ws(cs@.take(i as int)).update(
                        split_ws(cs@.take(i as int)).len() - 1,
                        split_ws(cs@.take(i as int)).last().push(c),
                    ));
                    assert(split_ws(t1) =~= toks + seq![cur@]);
                } else {
                    assert(pretoks + Seq::<Seq<char>>::empty() =~= pretoks);
                    assert(t1.last() == c);
                    assert(!(t1.len() >= 2 && !is_ws(t1[t1.len() - 2])));
                    assert(split_ws(t1) == pretoks.push(seq![c]));
                    assert(cur@ =~= seq![c]);
                    assert(split_ws(t1) =~= toks + seq![cur@]);
                }
            }
        }
    }
    proof {
        assert(cs@.take(n as int) =~= cs@);
    }
    if cur.len() > 0 {
        let ghost pretoks = toks;
        let w = filter_token(&cur);
        push_unique(&mut words, w);
        proof {
            toks = toks.push(cur@);
            lemma_dedup_step(pretoks, cur@);
            assert(pretoks + seq![cur@] =~= toks);
        }
    } else {
        proof {
            assert(toks + Seq::<Seq<char>>::empty() =~= toks);
        }
    }
    words
}

/// The normalized form of a token held as characters, as a `String`.
fn filter_token(cs: &Vec<char>) -> (r: String)
    ensures
        r@ == norm_word(cs@),
{
    let normed = norm_chars(cs);
    chars_to_string(&normed)
}

/// Returns the path at which the system word list is expected.
pub fn get_dict_path() -> (r: String)
    ensures
        r@ == "/usr/share/dict/words"@,
{
    let p = "/usr/share/dict/words";
    p.to_owned()
}

/// Picks the dictionary path: a word file of the working directory when one
/// is present, otherwise the system word list.
pub fn resolve_dict_path(has_local_words: bool) -> (r: String)
    ensures
        has_local_words ==> r@ == ".words"@,
        !has_local_words ==> r@ == "/usr/share/dict/words"@,
{
    if has_local_words {
        let p = ".words";
        p.to_owned()
    } else {
        get_dict_path()
    }
}

/// The segments of a text split at each newline character.  A text always
/// has one more segment than it has newlines; the last segment holds the
/// characters after the final newline.
pub open spec fn raw_segments(s: Seq<char>) -> Seq<Seq<char>>
    decreases s.len(),
{
    if s.len() == 0 {
        seq![Seq::<char>::empty()]
    } else {
        let rest = raw_segments(s.drop_last());
        if s.last() == '\n' {
            rest.push(Seq::empty())
        } else {
            rest.update(rest.len() - 1, rest.last().push(s.last()))
        }
    }
}

/// A segment with one trailing carriage return removed, if it has one.
pub open spec fn strip_cr(t: Seq<char>) -> Seq<char> {
    if t.len() > 0 && t.last() == '\r' {
        t.drop_last()
    } else {
        t
    }
}

/// The lines of a text: its newline-separated segments, each without a
/// trailing carriage return, and without the empty segment a trailing
/// newline would leave.
pub open spec fn spec_lines(s: Seq<char>) -> Seq<Seq<char>> {
    let raw = raw_segments(s);
    let kept = if raw.last().len() == 0 {
        raw.drop_last()
    } else {
        raw
    };
    kept.map_values(|t: Seq<char>| strip_cr(t))
}

/// One line, with a trailing carriage return removed.
fn strip_cr_token(cs: &Vec<char>) -> (r: String)
    ensures
        r@ == strip_cr(cs@),
{
    let n = cs.len();
    if n > 0 && cs[n - 1] == '\r' {
        let mut cs2 = cs.clone();
        proof {
            vstd::std_specs::vec::vec_clone_deep_view_proof(*cs, cs2);
            assert(cs2@ =~= cs@);
        }
        let _ = cs2.pop();
        chars_to_string(&cs2)
    } else {
        chars_to_string(cs)
    }
}

/// Returns the words of a dictionary text, one per line, in order: line
/// number equals bit position for every bitmap built against it.
pub fn dict_words_from_text(contents: &String) -> (r: Vec<String>)
    ensures
        views_of(r@) == spec_lines(contents@),
{
    let cs = string_chars(contents);
    let n = cs.len();
    let mut lines: Vec<String> = Vec::new();
    let mut cur: Vec<char> = Vec::new();
    let ghost mut done: Seq<Seq<char>> = Seq::empty();
    for i in 0..n
        invariant
            cs@ == contents@,
            n == cs@.len(),
            raw_segments(cs@.take(i as int)) == done.push(cur@),
            views_of(lines@) == done.map_values(|t: Seq<char>| strip_cr(t)),
    {
        let ghost predone = done;
        let ghost precur = cur@;
        proof {
            assert(cs@.take(i + 1).drop_last() =~= cs@.take(i as int));
        }
        let c = cs[i];
        if c == '\n' {
            let w = strip_cr_token(&cur);
            let ghost prelines = lines@;
            lines.push(w);
            proof {
                done = done.push(precur);
                assert(views_of(lines@) =~= views_of(prelines).push(lines@.last()@));
                assert(views_of(lines@) =~= done.map_values(|t: Seq<char>| strip_cr(t)));
            }
            cur = Vec::new();
            proof {
                assert(raw_segments(cs@.take(i + 1)) == raw_segments(cs@.take(i as int)).push(
                    Seq::empty(),
                ));
                assert(predone.push(precur).push(cur@) =~= done.push(cur@));
            }
        } else {
            cur.push(c);
            proof {
                let prev = raw_segments(cs@.take(i as int));
                assert(prev.len() == predone.len() + 1);
                assert(prev.last() == precur);
                assert(raw_segments(cs@.take(i + 1)) == prev.update(
                    prev.len() - 1,
                    precur.push(c),
                ));
                assert(raw_segments(cs@.take(i + 1)) =~= done.push(cur@));
            }
        }
    }
    proof {
        assert(cs@.take(n as int) =~= cs@);
    }
    if cur.len() > 0 {
        let w = strip_cr_token(&cur);
        let ghost prelines = lines@;
        lines.push(w);
        proof {
            let f = |t: Seq<char>| strip_cr(t);
            assert(views_of(lines@) =~= views_of(prelines).push(lines@.last()@));
            let raw = raw_segments(cs@);
            assert(raw.last() == cur@);
            assert(views_of(lines@) =~= raw.map_values(f));
        }
    } else {
        proof {
            let f = |t: Seq<char>| strip_cr(t);
            let raw = raw_segments(cs@);
            assert(raw.last() == cur@);
            assert(raw.drop_last() =~= done);
            assert(views_of(lines@) =~= raw.drop_last().map_values(f));
        }
    }
    lines
}

/// Appending a token to a token list extends the deduplicated normalized
/// word list exactly when the token's normalized form is new.
proof fn lemma_dedup_step(toks: Seq<Seq<char>>, t: Seq<char>)
    ensures
        first_dedup(norm_all(toks.push(t))) == (if first_dedup(norm_all(toks)).contains(
            norm_word(t),
        ) {
            first_dedup(norm_all(toks))
        } else {
            first_dedup(norm_all(toks)).push(norm_word(t))
        }),
{
    assert(norm_all(toks.push(t)) =~= norm_all(toks).push(norm_word(t)));
    let m = norm_all(toks).push(norm_word(t));
    assert(m.drop_last() =~= norm_all(toks));
    assert(m.last() == norm_word(t));
}

} // verus!
