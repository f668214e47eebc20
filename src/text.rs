//! Splitting result texts into words for re-ranking.
use vstd::prelude::*;
use vstd::string::StrSliceExecFns;

verus! {

/// A piece of text with its position among the pieces.
#[derive(Debug, Clone)]
pub struct Doc {
    pub id: usize,
    pub text: String,
}

/// The pieces of `s` between occurrences of `sep`, in order; empty pieces included.
pub open spec fn split_on(s: Seq<char>, sep: char) -> Seq<Seq<char>>
    decreases s.len(),
{
    if s.len() == 0 {
        seq![Seq::empty()]
    } else {
        let r = split_on(s.drop_last(), sep);
        if s.last() == sep {
            r.push(Seq::empty())
        } else {
            r.update(r.len() - 1, r.last().push(s.last()))
        }
    }
}

/// The words of `s`: its pieces between single spaces.
pub fn tokenizer(s: &str) -> (r: Vec<String>)
    ensures
        r@.map_values(|t: String| t@) == split_on(s@, ' '),
{
    split_pieces(s, ' ')
}

/// The sentences of `s`: its pieces between full stops.
pub fn sentences(s: &str) -> (r: Vec<String>)
    ensures
        r@.map_values(|t: String| t@) == split_on(s@, '.'),
{
    split_pieces(s, '.')
}

/// The pieces of `s` between occurrences of `sep`.
pub fn split_pieces(s: &str, sep: char) -> (r: Vec<String>)
    ensures
        r@.map_values(|t: String| t@) == split_on(s@, sep),
{
    let n = s.unicode_len();
    let mut done: Vec<String> = Vec::new();
    let mut start: usize = 0;
    let mut i: usize = 0;
    proof {
        assert(s@.subrange(0, 0) =~= Seq::<char>::empty());
        assert(done@.map_values(|t: String| t@).push(s@.subrange(0, 0)) =~= seq![Seq::<char>::empty()]);
    }
    while i < n
        invariant
            n == s@.len(),
            start <= i <= n,
            split_on(s@.subrange(0, i as int), sep) == done@.map_values(|t: String| t@).push(
                s@.subrange(start as int, i as int),
            ),
        decreases n - i,
    {
        let c = s.get_char(i);
        let ghost pre = s@.subrange(0, i as int);
        proof {
            assert(s@.subrange(0, i as int + 1).drop_last() =~= pre);
            assert(s@.subrange(0, i as int + 1).last() == c);
        }
        if c == sep {
            let piece = s.substring_char(start, i).to_owned();
            done.push(piece);
            proof {
                assert(done@.map_values(|t: String| t@) =~= split_on(pre, sep).drop_last().push(
                    s@.subrange(start as int, i as int)));
                assert(s@.subrange(i as int + 1, i as int + 1) =~= Seq::<char>::empty());
                assert(split_on(s@.subrange(0, i as int + 1), sep) =~= done@.map_values(|t: String| t@).push(
                    s@.subrange(i as int + 1, i as int + 1)));
            }
            start = i + 1;
        } else {
            proof {
                assert(s@.subrange(start as int, i as int + 1) =~= s@.subrange(start as int, i as int).push(c));
                assert(split_on(s@.subrange(0, i as int + 1), sep) =~= done@.map_values(|t: String| t@).push(
                    s@.subrange(start as int, i as int + 1)));
            }
        }
        i = i + 1;
    }
    let last = s.substring_char(start, n).to_owned();
    done.push(last);
    proof {
        assert(s@.subrange(0, n as int) =~= s@);
        assert(done@.map_values(|t: String| t@) =~= split_on(s@, sep));
    }
    done
}

/// The text fields of a document that are indexed: its text alone.
pub fn text_extract(d: &Doc) -> (r: Vec<&str>)
    ensures
        r@.len() == 1,
        r@[0]@ == d.text@,
{
    let mut r: Vec<&str> = Vec::new();
    r.push(d.text.as_str());
    r
}

} // verus!
