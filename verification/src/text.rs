//! Tokenization: the shared normalization step of the vectorizer.
//!
//! A text is scanned byte by byte (the UTF-8 bytes of the string). ASCII
//! letters and digits form tokens; letters are lowercased; every other byte
//! is a boundary. Multi-byte characters therefore act as boundaries, which
//! matches treating non-ASCII-alphanumeric characters as separators.
use vstd::prelude::*;
use vstd::string::StringSliceAdditionalSpecFns;

verus! {

/// True of the bytes that may appear inside a token.
pub open spec fn is_word_byte(b: u8) -> bool {
    (97 <= b && b <= 122) || (65 <= b && b <= 90) || (48 <= b && b <= 57)
}

/// ASCII lowercasing of one byte.
pub open spec fn lower_byte(b: u8) -> u8 {
    if 65 <= b && b <= 90 {
        (b + 32) as u8
    } else {
        b
    }
}

/// The tokens of `s`, given the partial token `cur` already scanned.
pub open spec fn tok_rec(s: Seq<u8>, cur: Seq<u8>) -> Seq<Seq<u8>>
    decreases s.len(),
{
    if s.len() == 0 {
        if cur.len() == 0 {
            Seq::empty()
        } else {
            seq![cur]
        }
    } else if is_word_byte(s[0]) {
        tok_rec(s.drop_first(), cur.push(lower_byte(s[0])))
    } else {
        (if cur.len() == 0 {
            Seq::<Seq<u8>>::empty()
        } else {
            seq![cur]
        }) + tok_rec(s.drop_first(), Seq::empty())
    }
}

/// The lowercased alphanumeric tokens of a byte sequence, in order.
pub open spec fn tokenize_spec(s: Seq<u8>) -> Seq<Seq<u8>> {
    tok_rec(s, Seq::empty())
}

/// Whether `t` occurs among `xs`.
pub open spec fn contains_tok(xs: Seq<Seq<u8>>, t: Seq<u8>) -> bool {
    exists|i: int| 0 <= i < xs.len() && xs[i] == t
}

/// `toks` with every token of `stops` removed.
pub open spec fn filter_stop(toks: Seq<Seq<u8>>, stops: Seq<Seq<u8>>) -> Seq<Seq<u8>>
    decreases toks.len(),
{
    if toks.len() == 0 {
        Seq::empty()
    } else {
        filter_stop(toks.drop_last(), stops) + (if contains_tok(stops, toks.last()) {
            Seq::<Seq<u8>>::empty()
        } else {
            seq![toks.last()]
        })
    }
}

/// Byte-wise equality of two tokens.
pub fn tok_eq(a: &Vec<u8>, b: &Vec<u8>) -> (r: bool)
    ensures
        r == (a@ == b@),
{
    if a.len() != b.len() {
        assert(a@ != b@);
        return false;
    }
    let mut i: usize = 0;
    while i < a.len()
        invariant
            i <= a.len(),
            a@.len() == b@.len(),
            forall|k: int| 0 <= k < i ==> a@[k] == b@[k],
        decreases a.len() - i,
    {
        if a[i] != b[i] {
            assert(a@ != b@);
            return false;
        }
        i = i + 1;
    }
    proof {
        assert(a@ =~= b@);
    }
    true
}

/// Whether `t` is one of the tokens of `xs`.
pub fn contains_token(xs: &Vec<Vec<u8>>, t: &Vec<u8>) -> (r: bool)
    ensures
        r == contains_tok(xs.deep_view(), t@),
{
    let mut i: usize = 0;
    while i < xs.len()
        invariant
            i <= xs.len(),
            forall|k: int| 0 <= k < i ==> xs.deep_view()[k] != t@,
        decreases xs.len() - i,
    {
        proof {
            assert(xs.deep_view()[i as int] =~= xs@[i as int]@);
        }
        if tok_eq(&xs[i], t) {
            assert(xs.deep_view()[i as int] == t@);
            return true;
        }
        i = i + 1;
    }
    false
}

/// The lowercased alphanumeric tokens of `text`, scanning its UTF-8 bytes.
pub fn tokenize(text: &str) -> (toks: Vec<Vec<u8>>)
    ensures
        toks.deep_view() == tokenize_spec(text.spec_bytes()),
{
    let bytes: &[u8] = text.as_bytes();
    let ghost b = text.spec_bytes();
    let mut toks: Vec<Vec<u8>> = Vec::new();
    let mut cur: Vec<u8> = Vec::new();
    let mut i: usize = 0;
    proof {
        assert(b.skip(0) =~= b);
        assert(toks.deep_view() =~= Seq::<Seq<u8>>::empty());
    }
    while i < bytes.len()
        invariant
            i <= bytes@.len(),
            bytes@ == b,
            tokenize_spec(b) == toks.deep_view() + tok_rec(b.skip(i as int), cur@),
        decreases bytes@.len() - i,
    {
        let c = bytes[i];
        proof {
            assert(b.skip(i as int).len() > 0);
            assert(b.skip(i as int)[0] == c);
            assert(b.skip(i as int).drop_first() =~= b.skip(i as int + 1));
        }
        if (c >= 97 && c <= 122) || (c >= 48 && c <= 57) {
            cur.push(c);
        } else if c >= 65 && c <= 90 {
            cur.push(c + 32);
        } else {
            if cur.len() > 0 {
                let ghost old_toks = toks.deep_view();
                let ghost cur_v = cur@;
                toks.push(cur);
                cur = Vec::new();
                proof {
                    assert(toks.deep_view() =~~= old_toks.push(cur_v));
                    assert(old_toks + seq![cur_v] =~~= toks.deep_view());
                    assert((old_toks + (seq![cur_v] + tok_rec(b.skip(i as int + 1), Seq::empty())))
                        =~~= (toks.deep_view() + tok_rec(b.skip(i as int + 1), Seq::empty())));
                    assert((old_toks + seq![cur_v]) + tok_rec(b.skip(i as int + 1), Seq::empty())
                        =~~= old_toks + (seq![cur_v] + tok_rec(b.skip(i as int + 1), Seq::empty())));
                }
            } else {
                proof {
                    assert(cur@ =~= Seq::<u8>::empty());
                    assert(Seq::<Seq<u8>>::empty() + tok_rec(b.skip(i as int + 1), Seq::empty())
                        =~~= tok_rec(b.skip(i as int + 1), Seq::empty()));
                }
            }
        }
        i = i + 1;
    }
    proof {
        assert(b.skip(b.len() as int) =~= Seq::<u8>::empty());
    }
    if cur.len() > 0 {
        let ghost old_toks = toks.deep_view();
        let ghost cur_v = cur@;
        toks.push(cur);
        proof {
            assert(toks.deep_view() =~~= old_toks.push(cur_v));
            assert(old_toks + seq![cur_v] =~~= toks.deep_view());
        }
    } else {
        proof {
            assert(toks.deep_view() + Seq::<Seq<u8>>::empty() =~~= toks.deep_view());
        }
    }
    proof {
        assert(tokenize_spec(b) =~~= toks.deep_view());
    }
    toks
}

/// The tokens of `text` with the stopwords removed.
pub fn filtered_tokens(stops: &Vec<Vec<u8>>, text: &str) -> (toks: Vec<Vec<u8>>)
    ensures
        toks.deep_view() == filter_stop(tokenize_spec(text.spec_bytes()), stops.deep_view()),
{
    let raw = tokenize(text);
    let mut out: Vec<Vec<u8>> = Vec::new();
    let mut i: usize = 0;
    proof {
        assert(raw.deep_view().take(0) =~= Seq::<Seq<u8>>::empty());
        assert(out.deep_view() =~= filter_stop(raw.deep_view().take(0), stops.deep_view()));
    }
    while i < raw.len()
        invariant
            i <= raw@.len(),
            raw.deep_view() == tokenize_spec(text.spec_bytes()),
            out.deep_view() == filter_stop(raw.deep_view().take(i as int), stops.deep_view()),
        decreases raw@.len() - i,
    {
        let ghost dv = raw.deep_view();
        proof {
            assert(dv.take(i as int + 1).drop_last() =~= dv.take(i as int));
            assert(dv.take(i as int + 1).last() == dv[i as int]);
            assert(dv[i as int] =~= raw@[i as int]@);
        }
        if contains_token(stops, &raw[i]) {
            proof {
                assert(out.deep_view() + Seq::<Seq<u8>>::empty() =~= out.deep_view());
            }
        } else {
            let ghost old_out = out.deep_view();
            let tok = clone_token(&raw[i]);
            proof {
                assert(tok@ =~= dv[i as int]);
            }
            out.push(tok);
            proof {
                assert(out.deep_view() =~~= old_out + seq![dv[i as int]]);
            }
        }
        i = i + 1;
    }
    proof {
        assert(raw.deep_view().take(raw@.len() as int) =~= raw.deep_view());
    }
    out
}

/// A copy of one token.
pub fn clone_token(t: &Vec<u8>) -> (r: Vec<u8>)
    ensures
        r@ == t@,
{
    let mut r: Vec<u8> = Vec::new();
    let mut i: usize = 0;
    while i < t.len()
        invariant
            i <= t@.len(),
            r@ =~= t@.take(i as int),
        decreases t@.len() - i,
    {
        r.push(t[i]);
        i = i + 1;
    }
    proof {
        assert(t@.take(t@.len() as int) =~= t@);
    }
    r
}

} // verus!
