//! Character-level text utilities: line splitting, ASCII-whitespace
//! tokenizing, and the two trusted bridges between `String`/`&str` and
//! `Vec<char>` that let the rest of the library work on plain characters.

use vstd::prelude::*;

verus! {

/// Relies on `str::chars`: the characters of the string, in order.
#[verifier::external_body]
pub fn chars_of(s: &str) -> (r: Vec<char>)
    ensures
        r@ == s@,
{
    s.chars().collect()
}

/// Relies on `String::from_iter` over `char`: the string of exactly these
/// characters.
#[verifier::external_body]
pub fn string_from_chars(v: &Vec<char>) -> (r: String)
    ensures
        r@ == v@,
{
    v.iter().collect()
}

/// ASCII whitespace, as `char::is_ascii_whitespace` classifies it.
pub open spec fn is_ws(c: char) -> bool {
    c == ' ' || c == '\t' || c == '\n' || c == '\r' || c == '\x0c'
}

fn is_ws_exec(c: char) -> (r: bool)
    ensures
        r == is_ws(c),
{
    c == ' ' || c == '\t' || c == '\n' || c == '\r' || c == '\x0c'
}

/// Splitting on a separator character, empty pieces preserved (the `\n`
/// splitting of a message).
pub open spec fn split_ch(s: Seq<char>, sep: char) -> Seq<Seq<char>>
    decreases s.len(),
{
    if s.len() == 0 {
        seq![Seq::<char>::empty()]
    } else if s[0] == sep {
        seq![Seq::<char>::empty()] + split_ch(s.drop_first(), sep)
    } else {
        let rest = split_ch(s.drop_first(), sep);
        seq![seq![s[0]] + rest[0]] + rest.drop_first()
    }
}

pub proof fn lemma_split_ch_len(s: Seq<char>, sep: char)
    ensures
        split_ch(s, sep).len() >= 1,
    decreases s.len(),
{
    if s.len() == 0 {
    } else if s[0] == sep {
        lemma_split_ch_len(s.drop_first(), sep);
    } else {
        lemma_split_ch_len(s.drop_first(), sep);
    }
}

/// `s` holds no separator.
pub open spec fn ch_free(s: Seq<char>, sep: char) -> bool {
    forall|j: int| 0 <= j < s.len() ==> s[j] != sep
}

/// A separator-free string splits into itself alone.
pub proof fn lemma_split_ch_free(s: Seq<char>, sep: char)
    requires
        ch_free(s, sep),
    ensures
        split_ch(s, sep) =~~= seq![s],
    decreases s.len(),
{
    if s.len() == 0 {
        assert(split_ch(s, sep) =~~= seq![s]);
    } else {
        assert forall|j: int| 0 <= j < s.drop_first().len() implies s.drop_first()[j] != sep by {
            assert(s.drop_first()[j] == s[j + 1]);
        }
        lemma_split_ch_free(s.drop_first(), sep);
        let rest = split_ch(s.drop_first(), sep);
        assert(rest[0] == s.drop_first());
        assert(seq![s[0]] + s.drop_first() =~= s);
        assert(rest.drop_first() =~= Seq::<Seq<char>>::empty());
        assert(split_ch(s, sep) =~~= seq![s]);
    }
}

/// Splitting `x sep rest` where `x` is separator-free: `x` is the first piece.
pub proof fn lemma_split_ch_step(x: Seq<char>, rest: Seq<char>, sep: char)
    requires
        ch_free(x, sep),
    ensures
        split_ch(x + seq![sep] + rest, sep) =~~= seq![x] + split_ch(rest, sep),
    decreases x.len(),
{
    let s = x + seq![sep] + rest;
    if x.len() == 0 {
        assert(s[0] == sep);
        assert(s.drop_first() =~= rest);
        lemma_split_ch_len(rest, sep);
        assert(split_ch(s, sep) =~~= seq![x] + split_ch(rest, sep));
    } else {
        assert(s[0] == x[0]);
        assert(s[0] != sep);
        assert(s.drop_first() =~= x.drop_first() + seq![sep] + rest);
        assert forall|j: int| 0 <= j < x.drop_first().len() implies x.drop_first()[j] != sep by {
            assert(x.drop_first()[j] == x[j + 1]);
        }
        lemma_split_ch_step(x.drop_first(), rest, sep);
        lemma_split_ch_len(rest, sep);
        let inner = split_ch(s.drop_first(), sep);
        assert(inner =~~= seq![x.drop_first()] + split_ch(rest, sep));
        assert(inner[0] == x.drop_first());
        assert(seq![s[0]] + inner[0] =~= x);
        assert(inner.drop_first() =~= split_ch(rest, sep));
        assert(split_ch(s, sep) =~~= seq![x] + split_ch(rest, sep));
    }
}

/// Splits on a separator character, exactly as `split_ch` says.
#[verifier::loop_isolation(false)]
pub fn split_on_char(chars: &Vec<char>, sep: char) -> (r: Vec<Vec<char>>)
    ensures
        r@.map_values(|p: Vec<char>| p@) == split_ch(chars@, sep),
{
    let ghost whole = split_ch(chars@, sep);
    let mut out: Vec<Vec<char>> = Vec::new();
    let mut cur: Vec<char> = Vec::new();
    let mut fs: usize = 0;
    let mut i: usize = 0;
    assert(chars@.skip(0) =~= chars@);
    while i < chars.len()
        invariant
            0 <= fs <= i <= chars@.len(),
            cur@ == chars@.subrange(fs as int, i as int),
            ch_free(cur@, sep),
            whole == r_views(out@) + split_ch(chars@.skip(fs as int), sep),
        decreases chars@.len() - i,
    {
        let c = chars[i];
        if c == sep {
            proof {
                assert(chars@.skip(fs as int) =~= cur@ + seq![sep] + chars@.skip(i + 1));
                lemma_split_ch_step(cur@, chars@.skip(i + 1), sep);
            }
            let ghost pre_views = r_views(out@);
            out.push(cur);
            proof {
                assert(r_views(out@) =~= pre_views + seq![cur@]);
                assert(pre_views + (seq![cur@] + split_ch(chars@.skip(i + 1), sep)) =~~= (pre_views
                    + seq![cur@]) + split_ch(chars@.skip(i + 1), sep));
            }
            cur = Vec::new();
            fs = i + 1;
            assert(cur@ =~= chars@.subrange(fs as int, i + 1));
        } else {
            cur.push(c);
            assert(cur@ =~= chars@.subrange(fs as int, i + 1));
        }
        i += 1;
    }
    proof {
        lemma_split_ch_free(cur@, sep);
        assert(chars@.skip(fs as int) =~= cur@);
    }
    let ghost pre_views = r_views(out@);
    out.push(cur);
    proof {
        assert(r_views(out@) =~= pre_views + seq![cur@]);
        assert(pre_views + seq![cur@] =~~= whole);
    }
    out
}

/// The views of a vector of character vectors.
pub open spec fn r_views(v: Seq<Vec<char>>) -> Seq<Seq<char>> {
    v.map_values(|p: Vec<char>| p@)
}

/// The ASCII-whitespace tokens of a string, in order, never empty: what
/// `str::split_ascii_whitespace` yields.
pub open spec fn ws_tokens(s: Seq<char>) -> Seq<Seq<char>>
    decreases s.len(),
{
    if s.len() == 0 {
        Seq::empty()
    } else if is_ws(s[0]) {
        ws_tokens(s.drop_first())
    } else {
        let rest = ws_tokens(s.drop_first());
        if s.len() > 1 && !is_ws(s[1]) {
            seq![seq![s[0]] + rest[0]] + rest.drop_first()
        } else {
            seq![seq![s[0]]] + rest
        }
    }
}

/// A non-empty whitespace-free word followed by a boundary is the first token.
pub proof fn lemma_ws_tokens_step(x: Seq<char>, rest: Seq<char>)
    requires
        x.len() > 0,
        forall|j: int| 0 <= j < x.len() ==> !is_ws(#[trigger] x[j]),
        rest.len() == 0 || is_ws(rest[0]),
    ensures
        ws_tokens(x + rest) =~~= seq![x] + ws_tokens(rest),
    decreases x.len(),
{
    let s = x + rest;
    assert(s[0] == x[0]);
    assert(!is_ws(s[0]));
    if x.len() == 1 {
        assert(s.drop_first() =~= rest);
        if s.len() > 1 {
            assert(s[1] == rest[0]);
            assert(is_ws(s[1]));
        }
        assert(seq![s[0]] =~= x);
        assert(ws_tokens(s) =~~= seq![x] + ws_tokens(rest));
    } else {
        assert(s.drop_first() =~= x.drop_first() + rest);
        assert forall|j: int| 0 <= j < x.drop_first().len() implies !is_ws(
            #[trigger] x.drop_first()[j],
        ) by {
            assert(x.drop_first()[j] == x[j + 1]);
        }
        lemma_ws_tokens_step(x.drop_first(), rest);
        let inner = ws_tokens(s.drop_first());
        assert(inner =~~= seq![x.drop_first()] + ws_tokens(rest));
        assert(inner.len() >= 1);
        assert(inner[0] == x.drop_first());
        assert(s.len() > 1);
        assert(s[1] == x[1]);
        assert(!is_ws(s[1]));
        assert(seq![s[0]] + inner[0] =~= x);
        assert(inner.drop_first() =~= ws_tokens(rest));
        assert(ws_tokens(s) =~~= seq![x] + ws_tokens(rest));
    }
}

/// Tokenizes on ASCII whitespace, exactly as `ws_tokens` says.
#[verifier::loop_isolation(false)]
#[verifier::rlimit(100)]
pub fn split_whitespace_chars(chars: &Vec<char>) -> (r: Vec<Vec<char>>)
    ensures
        r@.map_values(|p: Vec<char>| p@) == ws_tokens(chars@),
{
    let ghost whole = ws_tokens(chars@);
    let mut out: Vec<Vec<char>> = Vec::new();
    let mut cur: Vec<char> = Vec::new();
    let mut fs: usize = 0;
    let mut i: usize = 0;
    assert(chars@.skip(0) =~= chars@);
    while i < chars.len()
        invariant
            0 <= fs <= i <= chars@.len(),
            cur@ == chars@.subrange(fs as int, i as int),
            forall|j: int| 0 <= j < cur@.len() ==> !is_ws(#[trigger] cur@[j]),
            whole == r_views(out@) + ws_tokens(cur@ + chars@.skip(i as int)),
        decreases chars@.len() - i,
    {
        let c = chars[i];
        if is_ws_exec(c) {
            if cur.len() > 0 {
                proof {
                    assert(chars@.skip(i as int).len() > 0);
                    assert(chars@.skip(i as int)[0] == c);
                    lemma_ws_tokens_step(cur@, chars@.skip(i as int));
                }
                let ghost pre_views = r_views(out@);
                out.push(cur);
                proof {
                    assert(r_views(out@) =~= pre_views + seq![cur@]);
                    assert(pre_views + (seq![cur@] + ws_tokens(chars@.skip(i as int))) =~~= (
                    pre_views + seq![cur@]) + ws_tokens(chars@.skip(i as int)));
                }
                cur = Vec::new();
            }
            proof {
                let sk = chars@.skip(i as int);
                assert(Seq::<char>::empty() + sk =~= sk);
                assert(sk[0] == c);
                assert(sk.drop_first() =~= chars@.skip(i + 1));
                assert(ws_tokens(sk) == ws_tokens(chars@.skip(i + 1)));
                assert(Seq::<char>::empty() + chars@.skip(i + 1) =~= chars@.skip(i + 1));
            }
            fs = i + 1;
            proof {
                assert(cur@ =~= chars@.subrange(fs as int, i + 1));
            }
        } else {
            let ghost c0 = cur@;
            proof {
                let sk = chars@.skip(i as int);
                assert(c0 + sk =~= (c0 + seq![c]) + chars@.skip(i + 1));
            }
            cur.push(c);
            proof {
                assert(cur@ =~= c0 + seq![c]);
                assert(cur@ =~= chars@.subrange(fs as int, i + 1));
            }
        }
        i += 1;
    }
    proof {
        assert(chars@.skip(chars@.len() as int) =~= Seq::<char>::empty());
    }
    if cur.len() > 0 {
        proof {
            assert(cur@ + chars@.skip(chars@.len() as int) =~= cur@);
            assert(cur@ + Seq::<char>::empty() =~= cur@);
            lemma_ws_tokens_step(cur@, Seq::<char>::empty());
        }
        let ghost pre_views = r_views(out@);
        out.push(cur);
        proof {
            assert(r_views(out@) =~= pre_views + seq![cur@]);
            assert(ws_tokens(Seq::<char>::empty()) =~~= Seq::<Seq<char>>::empty());
            assert(pre_views + seq![cur@] =~~= whole);
        }
    } else {
        proof {
            assert(cur@ + chars@.skip(chars@.len() as int) =~= Seq::<char>::empty());
            assert(ws_tokens(Seq::<char>::empty()) =~~= Seq::<Seq<char>>::empty());
            assert(r_views(out@) =~~= whole);
        }
    }
    out
}

} // verus!
