//! Plain text helpers: splitting byte strings and building `String`s.
use vstd::prelude::*;

verus! {

/// Relies on `String::from_iter` over `&char`: the string holds exactly the given characters.
#[verifier::external_body]
pub(crate) fn string_of(chars: &Vec<char>) -> (r: String)
    ensures
        r@ == chars@,
{
    String::from_iter(chars.iter())
}

/// The pieces of `b` between occurrences of `sep`; there is always at least one.
pub open spec fn split_on(b: Seq<u8>, sep: u8) -> Seq<Seq<u8>>
    decreases b.len(),
{
    if b.len() == 0 {
        seq![Seq::empty()]
    } else {
        let rest = split_on(b.drop_last(), sep);
        if b.last() == sep {
            rest.push(Seq::empty())
        } else {
            rest.update(rest.len() - 1, rest.last().push(b.last()))
        }
    }
}

/// A split always has at least one piece.
pub proof fn lemma_split_nonempty(b: Seq<u8>, sep: u8)
    ensures
        split_on(b, sep).len() >= 1,
    decreases b.len(),
{
    if b.len() > 0 {
        lemma_split_nonempty(b.drop_last(), sep);
    }
}

/// A line without the carriage return that ended it, if any.
pub open spec fn strip_cr(l: Seq<u8>) -> Seq<u8> {
    if l.len() > 0 && l.last() == 13u8 {
        l.drop_last()
    } else {
        l
    }
}

/// The lines of a text: pieces between newlines, each ended by `\n` or
/// `\r\n`; a final newline ends the last line rather than starting an empty one.
pub open spec fn lines_of(b: Seq<u8>) -> Seq<Seq<u8>> {
    let p = split_on(b, 10u8);
    let n = p.len() - 1;
    Seq::new(n as nat, |i: int| strip_cr(p[i])) + if p[n].len() == 0 {
        Seq::<Seq<u8>>::empty()
    } else {
        seq![p[n]]
    }
}

/// The views of a vector of byte vectors.
pub open spec fn views(v: Seq<Vec<u8>>) -> Seq<Seq<u8>> {
    v.map_values(|x: Vec<u8>| x@)
}

/// Splits `b` at every occurrence of `sep`.
pub fn split_bytes(b: &[u8], sep: u8) -> (r: Vec<Vec<u8>>)
    ensures
        views(r@) == split_on(b@, sep),
{
    let mut pieces: Vec<Vec<u8>> = Vec::new();
    let mut cur: Vec<u8> = Vec::new();
    let mut k: usize = 0;
    proof {
        assert(b@.subrange(0, 0) =~= Seq::<u8>::empty());
        assert(views(pieces@).push(cur@) =~= seq![Seq::<u8>::empty()]);
    }
    while k < b.len()
        invariant
            k <= b.len(),
            views(pieces@).push(cur@) == split_on(b@.subrange(0, k as int), sep),
        decreases b.len() - k,
    {
        let ghost prefix = b@.subrange(0, k as int);
        proof {
            assert(b@.subrange(0, k + 1).drop_last() =~= prefix);
            assert(b@.subrange(0, k + 1).last() == b[k as int]);
        }
        if b[k] == sep {
            pieces.push(cur);
            cur = Vec::new();
            proof {
                assert(views(pieces@).push(cur@) =~= split_on(prefix, sep).push(Seq::empty()));
            }
        } else {
            let ghost old_pieces = pieces@;
            cur.push(b[k]);
            proof {
                let rest = split_on(prefix, sep);
                assert(views(old_pieces).push(cur@) =~= rest.update(rest.len() - 1, rest.last().push(b[k as int])));
            }
        }
        k += 1;
    }
    proof {
        assert(b@.subrange(0, b.len() as int) =~= b@);
    }
    pieces.push(cur);
    proof {
        assert(views(pieces@) =~= split_on(b@, sep));
    }
    pieces
}

/// The first `n` bytes of `l`, copied.
fn copy_prefix(l: &[u8], n: usize) -> (r: Vec<u8>)
    requires
        n <= l.len(),
    ensures
        r@ == l@.subrange(0, n as int),
{
    let mut out: Vec<u8> = Vec::new();
    let mut k: usize = 0;
    while k < n
        invariant
            n <= l.len(),
            k <= n,
            out@ == l@.subrange(0, k as int),
        decreases n - k,
    {
        out.push(l[k]);
        proof {
            assert(out@ =~= l@.subrange(0, k + 1));
        }
        k += 1;
    }
    out
}

/// A copy of `l` without one trailing carriage return.
fn strip_cr_exec(l: &[u8]) -> (r: Vec<u8>)
    ensures
        r@ == strip_cr(l@),
{
    let n = l.len();
    if n > 0 && l[n - 1] == 13u8 {
        let r = copy_prefix(l, n - 1);
        proof {
            assert(r@ =~= strip_cr(l@));
        }
        r
    } else {
        let r = copy_prefix(l, n);
        proof {
            assert(r@ =~= strip_cr(l@));
        }
        r
    }
}

/// The lines of `text`, as `str::lines` gives them.
pub fn lines_bytes(text: &[u8]) -> (r: Vec<Vec<u8>>)
    ensures
        views(r@) == lines_of(text@),
{
    let pieces = split_bytes(text, 10u8);
    proof {
        lemma_split_nonempty(text@, 10u8);
    }
    let n = pieces.len() - 1;
    let mut out: Vec<Vec<u8>> = Vec::new();
    let mut i: usize = 0;
    while i < n
        invariant
            n == pieces.len() - 1,
            views(pieces@) == split_on(text@, 10u8),
            i <= n,
            views(out@) == Seq::new(i as nat, |t: int| strip_cr(split_on(text@, 10u8)[t])),
        decreases n - i,
    {
        let line = strip_cr_exec(pieces[i].as_slice());
        proof {
            assert(views(pieces@)[i as int] == pieces[i as int]@);
        }
        let ghost before = out@;
        out.push(line);
        proof {
            let target = Seq::new((i + 1) as nat, |t: int| strip_cr(split_on(text@, 10u8)[t]));
            assert(views(before).len() == before.len());
            assert(before.len() == i);
            assert(out@ == before.push(line));
            assert forall|t: int| 0 <= t < i + 1 implies #[trigger] views(out@)[t] == target[t] by {
                if t < i {
                    assert(out@[t] == before[t]);
                    assert(views(before)[t] == strip_cr(split_on(text@, 10u8)[t]));
                } else {
                    assert(out@[t] == line);
                }
            }
            assert(views(out@) =~= target);
        }
        i += 1;
    }
    proof {
        assert(views(pieces@)[n as int] == pieces[n as int]@);
    }
    if pieces[n].len() != 0 {
        let last = copy_prefix(pieces[n].as_slice(), pieces[n].len());
        proof {
            assert(last@ =~= pieces[n as int]@);
        }
        out.push(last);
    }
    proof {
        assert(views(out@) =~= lines_of(text@));
    }
    out
}

} // verus!
