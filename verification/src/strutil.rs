//! Verified string helpers: tokenisation of file identifiers, string
//! equality and substring search over character sequences, and the numeric
//! format strings handed to the spreadsheet renderer.

use vstd::prelude::*;
use vstd::string::*;

verus! {

/// The characters at which a file identifier is split into tokens.
pub open spec fn is_separator(c: char) -> bool {
    c == '-' || c == '.'
}

/// The tokens of `s`, split at every separator.  Separators are dropped and
/// empty tokens are kept, so the result always holds at least one token.
pub open spec fn split_tokens_spec(s: Seq<char>) -> Seq<Seq<char>>
    decreases s.len(),
{
    if s.len() == 0 {
        seq![Seq::<char>::empty()]
    } else if is_separator(s[0]) {
        seq![Seq::<char>::empty()] + split_tokens_spec(s.drop_first())
    } else {
        let rest = split_tokens_spec(s.drop_first());
        seq![seq![s[0]] + rest[0]] + rest.drop_first()
    }
}

/// Splitting a separator-free sequence yields that sequence as the only token.
pub proof fn lemma_split_no_sep(s: Seq<char>)
    requires
        forall|k: int| 0 <= k < s.len() ==> !is_separator(#[trigger] s[k]),
    ensures
        split_tokens_spec(s) == seq![s],
    decreases s.len(),
{
    if s.len() == 0 {
        assert(s =~= Seq::<char>::empty());
    } else {
        lemma_split_no_sep(s.drop_first());
        assert(seq![s[0]] + s.drop_first() =~= s);
        assert(split_tokens_spec(s) =~= seq![s]);
    }
}

/// Splitting `t + [c] + rest`, with `t` separator-free and `c` a separator,
/// yields `t` followed by the tokens of `rest`.
pub proof fn lemma_split_sep_head(t: Seq<char>, c: char, rest: Seq<char>)
    requires
        forall|k: int| 0 <= k < t.len() ==> !is_separator(#[trigger] t[k]),
        is_separator(c),
    ensures
        split_tokens_spec(t + seq![c] + rest) == seq![t] + split_tokens_spec(rest),
    decreases t.len(),
{
    let s = t + seq![c] + rest;
    if t.len() == 0 {
        assert(s[0] == c);
        assert(s.drop_first() =~= rest);
        assert(t =~= Seq::<char>::empty());
        assert(split_tokens_spec(s) =~= seq![t] + split_tokens_spec(rest));
    } else {
        assert(s[0] == t[0]);
        assert(!is_separator(s[0]));
        assert(s.drop_first() =~= t.drop_first() + seq![c] + rest);
        lemma_split_sep_head(t.drop_first(), c, rest);
        let r2 = split_tokens_spec(t.drop_first() + seq![c] + rest);
        assert(r2[0] == t.drop_first());
        assert(r2.drop_first() =~= split_tokens_spec(rest));
        assert(seq![s[0]] + r2[0] =~= t);
        assert(split_tokens_spec(s) =~= seq![t] + split_tokens_spec(rest));
    }
}

/// The views of a sequence of string slices.
pub open spec fn strs_view(v: Seq<&str>) -> Seq<Seq<char>> {
    v.map_values(|t: &str| t@)
}

/// Splits a string at every `-` and `.`, keeping empty tokens.
pub fn split_tokens(s: &str) -> (r: Vec<&str>)
    ensures
        strs_view(r@) == split_tokens_spec(s@),
{
    let len = s.unicode_len();
    let mut toks: Vec<&str> = Vec::new();
    let mut start: usize = 0;
    let mut i: usize = 0;
    proof {
        assert(s@.skip(0) =~= s@);
        assert(strs_view(toks@) =~= Seq::<Seq<char>>::empty());
        assert(strs_view(toks@) + split_tokens_spec(s@) =~= split_tokens_spec(s@));
    }
    while i < len
        invariant
            start <= i <= len,
            len == s@.len(),
            split_tokens_spec(s@) == strs_view(toks@) + split_tokens_spec(s@.skip(start as int)),
            forall|k: int| start <= k < i ==> !is_separator(#[trigger] s@[k]),
        decreases len - i,
    {
        let c = s.get_char(i);
        if c == '-' || c == '.' {
            let tok = s.substring_char(start, i);
            proof {
                let pre = s@.subrange(start as int, i as int);
                assert(s@.skip(start as int) =~= pre + seq![s@[i as int]] + s@.skip(i as int + 1));
                lemma_split_sep_head(pre, s@[i as int], s@.skip(i as int + 1));
                assert(strs_view(toks@.push(tok)) =~= strs_view(toks@) + seq![tok@]);
                assert(strs_view(toks@) + (seq![pre] + split_tokens_spec(s@.skip(i as int + 1)))
                    =~= (strs_view(toks@) + seq![pre]) + split_tokens_spec(s@.skip(i as int + 1)));
            }
            toks.push(tok);
            start = i + 1;
        }
        i += 1;
    }
    let tok = s.substring_char(start, len);
    proof {
        assert(s@.skip(start as int) =~= s@.subrange(start as int, len as int));
        lemma_split_no_sep(s@.skip(start as int));
        assert(strs_view(toks@.push(tok)) =~= strs_view(toks@) + seq![tok@]);
        assert(strs_view(toks@) + seq![s@.skip(start as int)]
            =~= strs_view(toks@) + split_tokens_spec(s@.skip(start as int)));
    }
    toks.push(tok);
    toks
}

/// Character-wise string equality.
pub fn str_eq(a: &str, b: &str) -> (r: bool)
    ensures
        r == (a@ == b@),
{
    let alen = a.unicode_len();
    let blen = b.unicode_len();
    if alen != blen {
        return false;
    }
    let mut i: usize = 0;
    while i < alen
        invariant
            i <= alen,
            alen == a@.len(),
            alen == b@.len(),
            forall|k: int| 0 <= k < i ==> a@[k] == b@[k],
        decreases alen - i,
    {
        if a.get_char(i) != b.get_char(i) {
            return false;
        }
        i += 1;
    }
    proof {
        assert(a@ =~= b@);
    }
    true
}

/// `needle` occurs as a contiguous run of characters inside `hay`.
pub open spec fn contains_sub(hay: Seq<char>, needle: Seq<char>) -> bool {
    exists|i: int|
        0 <= i && i + needle.len() <= hay.len() && #[trigger] hay.subrange(
            i,
            i + needle.len() as int,
        ) == needle
}

fn match_at(hay: &str, needle: &str, i: usize, hlen: usize, nlen: usize) -> (r: bool)
    requires
        hlen == hay@.len(),
        nlen == needle@.len(),
        i + nlen <= hlen,
    ensures
        r == (hay@.subrange(i as int, i as int + needle@.len() as int) == needle@),
{
    let mut j: usize = 0;
    while j < nlen
        invariant
            j <= nlen,
            hlen == hay@.len(),
            nlen == needle@.len(),
            i + nlen <= hlen,
            forall|k: int| 0 <= k < j ==> hay@[i + k] == needle@[k],
        decreases nlen - j,
    {
        if hay.get_char(i + j) != needle.get_char(j) {
            proof {
                let sub = hay@.subrange(i as int, i as int + needle@.len() as int);
                assert(sub[j as int] == hay@[i + j as int]);
            }
            return false;
        }
        j += 1;
    }
    proof {
        assert(hay@.subrange(i as int, i as int + needle@.len() as int) =~= needle@);
    }
    true
}

/// Substring search: does `needle` occur inside `hay`?
pub fn str_contains(hay: &str, needle: &str) -> (r: bool)
    ensures
        r == contains_sub(hay@, needle@),
{
    let hlen = hay.unicode_len();
    let nlen = needle.unicode_len();
    if nlen > hlen {
        return false;
    }
    if nlen == 0 {
        proof {
            assert(hay@.subrange(0, 0 + needle@.len() as int) =~= needle@);
        }
        return true;
    }
    let mut i: usize = 0;
    while i <= hlen - nlen
        invariant
            1 <= nlen <= hlen,
            hlen == hay@.len(),
            nlen == needle@.len(),
            i <= hlen - nlen + 1,
            forall|k: int|
                0 <= k < i ==> #[trigger] hay@.subrange(k, k + needle@.len() as int) != needle@,
        decreases hlen - nlen + 1 - i,
    {
        if match_at(hay, needle, i, hlen, nlen) {
            return true;
        }
        i += 1;
    }
    false
}

/// The spec of `char::is_numeric`, left uninterpreted beyond the facts the
/// wrapper below states: the result depends on the character alone.
pub uninterp spec fn numeric_char(c: char) -> bool;

/// Relies on `char::is_numeric`: the result is a function of the character
/// alone, and among ASCII characters exactly the decimal digits are numeric.
#[verifier::external_body]
pub fn char_is_numeric(c: char) -> (r: bool)
    ensures
        r == numeric_char(c),
        (c as u32) < 128 ==> (r <==> (48 <= c as u32 && c as u32 <= 57)),
{
    c.is_numeric()
}

/// A token holds at least one numeric character.
pub open spec fn has_numeric(t: Seq<char>) -> bool {
    exists|i: int| 0 <= i < t.len() && numeric_char(t[i])
}

/// Does the string hold at least one numeric character?
pub fn str_has_numeric(t: &str) -> (r: bool)
    ensures
        r == has_numeric(t@),
{
    let len = t.unicode_len();
    let mut i: usize = 0;
    while i < len
        invariant
            i <= len,
            len == t@.len(),
            forall|k: int| 0 <= k < i ==> !numeric_char(#[trigger] t@[k]),
        decreases len - i,
    {
        if char_is_numeric(t.get_char(i)) {
            return true;
        }
        i += 1;
    }
    false
}

/// A run of `n` zero characters.
pub open spec fn zeros(n: nat) -> Seq<char> {
    Seq::new(n, |i: int| '0')
}

/// The numeric format handed to the renderer: `0.` followed by one zero per
/// decimal place, with a percent suffix when the column holds percentages.
pub open spec fn number_format_spec(decimals: nat, is_percent: bool) -> Seq<char> {
    "0."@ + zeros(decimals) + if is_percent {
        "%"@
    } else {
        Seq::<char>::empty()
    }
}

/// Builds the renderer's numeric format string for a header.
pub fn number_format_string(decimals: usize, is_percent: bool) -> (r: String)
    ensures
        r@ == number_format_spec(decimals as nat, is_percent),
{
    let mut r = String::from_str("0.");
    let mut k: usize = 0;
    while k < decimals
        invariant
            k <= decimals,
            r@ == "0."@ + zeros(k as nat),
        decreases decimals - k,
    {
        proof {
            reveal_strlit("0");
            assert(("0."@ + zeros(k as nat)) + "0"@ =~= "0."@ + zeros((k + 1) as nat));
        }
        r.append("0");
        k += 1;
    }
    if is_percent {
        r.append("%");
    }
    proof {
        if !is_percent {
            assert(("0."@ + zeros(decimals as nat)) + Seq::<char>::empty()
                =~= "0."@ + zeros(decimals as nat));
        }
    }
    r
}

} // verus!
