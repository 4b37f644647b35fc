use vstd::prelude::*;
use vstd::std_specs::iter::IteratorSpec;

verus! {

/// A token is a maximal run of non-whitespace characters.
pub type Token = Vec<char>;

/// The characters that separate tokens: ASCII whitespace.
pub open spec fn is_separator(c: char) -> bool {
    c == ' ' || c == '\t' || c == '\n' || c == '\r' || c == '\x0B' || c == '\x0C'
}

/// Reads `s` left to right: the tokens completed so far, and the token being read.
pub open spec fn scan(s: Seq<char>) -> (Seq<Seq<char>>, Seq<char>)
    decreases s.len(),
{
    if s.len() == 0 {
        (seq![], seq![])
    } else {
        let (done, cur) = scan(s.drop_last());
        let c = s.last();
        if is_separator(c) {
            if cur.len() > 0 {
                (done.push(cur), seq![])
            } else {
                (done, cur)
            }
        } else {
            (done, cur.push(c))
        }
    }
}

/// The tokens of `s`, in order of appearance.
pub open spec fn tokens_of(s: Seq<char>) -> Seq<Seq<char>> {
    let (done, cur) = scan(s);
    if cur.len() > 0 {
        done.push(cur)
    } else {
        done
    }
}

/// The most tokens that a string of at most `usize::MAX` characters holds.
pub open spec fn max_tokens() -> nat {
    ((usize::MAX as nat) + 1) / 2
}

/// Every token but the last is followed by a separator.
pub proof fn lemma_scan_len(s: Seq<char>)
    ensures
        scan(s).1.len() == 0 ==> 2 * scan(s).0.len() <= s.len(),
        scan(s).1.len() > 0 ==> 2 * scan(s).0.len() + 1 <= s.len(),
    decreases s.len(),
{
    if s.len() > 0 {
        lemma_scan_len(s.drop_last());
    }
}

/// A string of `n` characters holds at most `(n + 1) / 2` tokens.
pub proof fn lemma_tokens_len(s: Seq<char>)
    ensures
        2 * tokens_of(s).len() <= s.len() + 1,
{
    lemma_scan_len(s);
}

/// The character sequences of a vector of tokens.
pub open spec fn token_views(v: Seq<Token>) -> Seq<Seq<char>> {
    v.map_values(|t: Token| t@)
}

/// Splits `s` into its tokens.
pub fn tokenize(s: &str) -> (r: Vec<Token>)
    ensures
        token_views(r@) == tokens_of(s@),
        r@.len() <= max_tokens(),
{
    let n = s.unicode_len();
    proof {
        lemma_tokens_len(s@);
    }
    let mut it = s.chars();
    let mut out: Vec<Token> = Vec::new();
    let mut cur: Token = Vec::new();
    let ghost mut seen: Seq<char> = seq![];
    loop
        invariant
            seen + it.remaining() == s@,
            token_views(out@) == scan(seen).0,
            cur@ == scan(seen).1,
            it.decrease() is Some,
        ensures
            seen == s@,
            token_views(out@) == scan(seen).0,
            cur@ == scan(seen).1,
        decreases it.decrease()->0,
    {
        let ghost before = it;
        match it.next() {
            None => {
                assert(seen =~= s@);
                break;
            },
            Some(c) => {
                proof {
                    assert(seen.push(c).drop_last() =~= seen);
                    assert(seen.push(c) + it.remaining() =~= seen + before.remaining());
                }
                if c == ' ' || c == '\t' || c == '\n' || c == '\r' || c == '\x0B' || c == '\x0C' {
                    if cur.len() > 0 {
                        let done = cur;
                        cur = Vec::new();
                        proof {
                            assert(token_views(out@.push(done)) =~= token_views(out@).push(done@));
                        }
                        out.push(done);
                    }
                } else {
                    cur.push(c);
                }
                proof {
                    seen = seen.push(c);
                }
            },
        }
    }
    assert(token_views(out@).len() == out@.len());
    if cur.len() > 0 {
        proof {
            assert(out@.len() < tokens_of(s@).len());
            assert(token_views(out@.push(cur)) =~= token_views(out@).push(cur@));
        }
        out.push(cur);
    }
    out
}

} // verus!
