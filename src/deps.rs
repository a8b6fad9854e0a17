use vstd::prelude::*;
use crate::cache::strings_view;

verus! {

/// The characters that separate tokens of a dependency listing: those of
/// Unicode's White_Space property.
pub open spec fn is_ws(c: char) -> bool {
    c == '\t' || c == '\n' || c == '\x0B' || c == '\x0C' || c == '\r' || c == ' '
        || c == '\u{85}' || c == '\u{A0}' || c == '\u{1680}' || c == '\u{2000}'
        || c == '\u{2001}' || c == '\u{2002}' || c == '\u{2003}' || c == '\u{2004}'
        || c == '\u{2005}' || c == '\u{2006}' || c == '\u{2007}' || c == '\u{2008}'
        || c == '\u{2009}' || c == '\u{200A}' || c == '\u{2028}' || c == '\u{2029}'
        || c == '\u{202F}' || c == '\u{205F}' || c == '\u{3000}'
}

/// The whitespace-separated words of `s` from position `i` on, where
/// `start` is where the word under way began, if one is.
pub open spec fn words_from(s: Seq<char>, i: int, start: Option<int>) -> Seq<Seq<char>>
    decreases s.len() - i,
{
    if i >= s.len() {
        match start {
            Some(b) => seq![s.subrange(b, s.len() as int)],
            None => Seq::empty(),
        }
    } else if is_ws(s[i]) {
        match start {
            Some(b) => seq![s.subrange(b, i)] + words_from(s, i + 1, None),
            None => words_from(s, i + 1, None),
        }
    } else {
        words_from(
            s,
            i + 1,
            if start is Some {
                start
            } else {
                Some(i)
            },
        )
    }
}

/// The whitespace-separated words of `s`.
pub open spec fn words(s: Seq<char>) -> Seq<Seq<char>> {
    words_from(s, 0, None)
}

/// A token with its trailing line-continuation and colon markers removed.
pub open spec fn trim_markers(t: Seq<char>) -> Seq<char>
    decreases t.len(),
{
    if t.len() > 0 && (t.last() == '\\' || t.last() == ':') {
        trim_markers(t.drop_last())
    } else {
        t
    }
}

/// A trimmed token names a candidate dependency: it is not empty, not an
/// absolute system path and not an angle-bracket system header.
pub open spec fn is_candidate(t: Seq<char>) -> bool {
    t.len() > 0 && t[0] != '/' && t[0] != '<'
}

/// The trimmed candidates among `ws`, in order.
pub open spec fn candidates(ws: Seq<Seq<char>>) -> Seq<Seq<char>>
    decreases ws.len(),
{
    if ws.len() == 0 {
        Seq::empty()
    } else {
        let rest = candidates(ws.drop_last());
        let t = trim_markers(ws.last());
        if is_candidate(t) {
            rest.push(t)
        } else {
            rest
        }
    }
}

/// The dependency candidates of a toolchain listing: every word but the
/// first (the target's name), trimmed, that is a candidate.
pub open spec fn dep_candidates(text: Seq<char>) -> Seq<Seq<char>> {
    let ws = words(text);
    if ws.len() == 0 {
        Seq::empty()
    } else {
        candidates(ws.drop_first())
    }
}

fn is_ws_char(c: char) -> (r: bool)
    ensures
        r == is_ws(c),
{
    c == '\t' || c == '\n' || c == '\x0B' || c == '\x0C' || c == '\r' || c == ' '
        || c == '\u{85}' || c == '\u{A0}' || c == '\u{1680}' || c == '\u{2000}'
        || c == '\u{2001}' || c == '\u{2002}' || c == '\u{2003}' || c == '\u{2004}'
        || c == '\u{2005}' || c == '\u{2006}' || c == '\u{2007}' || c == '\u{2008}'
        || c == '\u{2009}' || c == '\u{200A}' || c == '\u{2028}' || c == '\u{2029}'
        || c == '\u{202F}' || c == '\u{205F}' || c == '\u{3000}'
}

/// The whitespace-separated words of `text`.
pub fn split_words(text: &str) -> (r: Vec<String>)
    ensures
        strings_view(r@) == words(text@),
{
    let n = text.unicode_len();
    let ghost s = text@;
    let mut acc: Vec<String> = Vec::new();
    let mut start: Option<usize> = None;
    let mut i: usize = 0;
    while i < n
        invariant
            n == s.len(),
            s == text@,
            i <= n,
            match start {
                Some(b) => b < i,
                None => true,
            },
            words(s) == strings_view(acc@) + words_from(
                s,
                i as int,
                match start {
                    Some(b) => Some(b as int),
                    None => None,
                },
            ),
        decreases n - i,
    {
        let c = text.get_char(i);
        let ghost st = match start {
            Some(b) => Some(b as int),
            None => None::<int>,
        };
        if is_ws_char(c) {
            match start {
                Some(b) => {
                    let w = String::from_str(text.substring_char(b, i));
                    let ghost prev = acc@;
                    acc.push(w);
                    proof {
                        assert(strings_view(acc@) =~= strings_view(prev).push(w@));
                        assert(words_from(s, i as int, st) == seq![s.subrange(b as int, i as int)]
                            + words_from(s, i + 1, None));
                        assert(strings_view(acc@) + words_from(s, i + 1, None) =~= strings_view(prev)
                            + (seq![s.subrange(b as int, i as int)] + words_from(s, i + 1, None)));
                    }
                },
                None => {},
            }
            start = None;
        } else {
            if start.is_none() {
                start = Some(i);
            }
        }
        i = i + 1;
    }
    match start {
        Some(b) => {
            let w = String::from_str(text.substring_char(b, n));
            let ghost prev = acc@;
            acc.push(w);
            proof {
                assert(strings_view(acc@) =~= strings_view(prev).push(w@));
                assert(strings_view(acc@) =~= strings_view(prev) + words_from(
                    s,
                    n as int,
                    Some(b as int),
                ));
            }
        },
        None => {
            assert(strings_view(acc@) =~= strings_view(acc@) + words_from(s, n as int, None));
        },
    }
    acc
}

/// `t` without its trailing `\` and `:` characters.
pub fn trim_token(t: &str) -> (r: String)
    ensures
        r@ == trim_markers(t@),
{
    let mut end: usize = t.unicode_len();
    assert(t@.subrange(0, end as int) =~= t@);
    while end > 0 && (t.get_char(end - 1) == '\\' || t.get_char(end - 1) == ':')
        invariant
            end <= t@.len(),
            trim_markers(t@) == trim_markers(t@.subrange(0, end as int)),
        decreases end,
    {
        assert(t@.subrange(0, end as int).drop_last() =~= t@.subrange(0, end - 1));
        end = end - 1;
    }
    String::from_str(t.substring_char(0, end))
}

/// The dependency candidates of a toolchain listing. Which of them name a
/// file on disk is for the caller to see.
pub fn parse_deps(text: &str) -> (r: Vec<String>)
    ensures
        strings_view(r@) == dep_candidates(text@),
{
    let ws = split_words(text);
    let mut r: Vec<String> = Vec::new();
    if ws.len() == 0 {
        return r;
    }
    let ghost wv = strings_view(ws@);
    let ghost rest = wv.drop_first();
    assert(rest.subrange(0, 0) =~= Seq::<Seq<char>>::empty());
    let mut k: usize = 1;
    while k < ws.len()
        invariant
            wv == strings_view(ws@),
            wv == words(text@),
            rest == wv.drop_first(),
            1 <= k <= ws@.len(),
            strings_view(r@) == candidates(rest.subrange(0, k - 1)),
        decreases ws@.len() - k,
    {
        let t = trim_token(ws[k].as_str());
        proof {
            assert(rest.subrange(0, k as int).drop_last() =~= rest.subrange(0, k - 1));
            assert(rest.subrange(0, k as int).last() == ws@[k as int]@);
        }
        let len = t.as_str().unicode_len();
        if len > 0 && t.as_str().get_char(0) != '/' && t.as_str().get_char(0) != '<' {
            let ghost prev = r@;
            r.push(t);
            proof {
                assert(strings_view(r@) =~= strings_view(prev).push(t@));
            }
        }
        k = k + 1;
    }
    assert(rest.subrange(0, rest.len() as int) =~= rest);
    r
}

} // verus!
